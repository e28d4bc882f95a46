//! The laws of partial results: in which order and in what parts rows are taken does not matter.
//!
//! Counts, least and greatest values obey them as they stand. A sum that does not fit is rounded, so
//! the laws that regroup rows speak of rows whose sums are exact ([`exact`]): integers that an `i128`
//! holds, or numbers with a common step that do not add up to more steps than a floating-point number
//! holds.

use crate::combine;
use crate::combine::{Accum, GroupsView, KahanSum, PartialView};
use crate::dataset;
use crate::dataset::RowView;
use crate::float;
use crate::float::Float;
use crate::json::{JsonView, Num};
use crate::query;
use crate::query::{AggView, QueryView};
use crate::sort;
use vstd::multiset::Multiset;
use vstd::prelude::*;
use vstd::seq_lib::*;

verus! {

/// Two states are of one aggregate.
pub open spec fn same_kind(a: Accum, b: Accum) -> bool {
    match (a, b) {
        (Accum::Count(_), Accum::Count(_)) => true,
        (Accum::IntSum(_), Accum::IntSum(_)) => true,
        (Accum::IntSum(_), Accum::Sum(_)) => true,
        (Accum::Sum(_), Accum::IntSum(_)) => true,
        (Accum::Sum(_), Accum::Sum(_)) => true,
        (Accum::Min(_), Accum::Min(_)) => true,
        (Accum::Max(_), Accum::Max(_)) => true,
        (Accum::Avg { .. }, Accum::Avg { .. }) => true,
        _ => false,
    }
}

proof fn lemma_lost_commutes(a: Float, b: Float)
    ensures
        combine::lost(a, b) == combine::lost(b, a),
{
    float::lemma_sum_commutes(a, b);
    if a.mag() == b.mag() {
        float::lemma_opposite_sum(a, b);
    }
}

proof fn lemma_joined_commutes(a: KahanSum, b: KahanSum)
    ensures
        a.joined(b) == b.joined(a),
{
    float::lemma_sum_commutes(a.sum, b.sum);
    float::lemma_sum_commutes(a.comp, b.comp);
    lemma_lost_commutes(a.sum, b.sum);
}

/// It does not matter which of two states of one aggregate is merged into the other, whatever they
/// hold.
pub proof fn lemma_merged_commutes(a: Accum, b: Accum)
    requires
        same_kind(a, b),
    ensures
        combine::merged(a, b) == combine::merged(b, a),
{
    match (a, b) {
        (Accum::IntSum(x), Accum::IntSum(y)) => {
            lemma_joined_commutes(combine::promoted(x as int), combine::promoted(y as int));
        },
        (Accum::IntSum(x), Accum::Sum(y)) => {
            lemma_joined_commutes(combine::promoted(x as int), y);
        },
        (Accum::Sum(x), Accum::IntSum(y)) => {
            lemma_joined_commutes(x, combine::promoted(y as int));
        },
        (Accum::Sum(x), Accum::Sum(y)) => {
            lemma_joined_commutes(x, y);
        },
        (Accum::Min(Some(x)), Accum::Min(Some(y))) => {
            float::lemma_min_max(x, y, y);
        },
        (Accum::Max(Some(x)), Accum::Max(Some(y))) => {
            float::lemma_min_max(x, y, y);
        },
        (Accum::Avg { sum: x, count: m }, Accum::Avg { sum: y, count: n }) => {
            lemma_joined_commutes(x, y);
        },
        _ => {},
    }
}

/// A state without a floating-point sum.
pub open spec fn unrounded(a: Accum) -> bool {
    match a {
        Accum::Sum(_) => false,
        Accum::Avg { .. } => false,
        _ => true,
    }
}

/// The integer sum of a state.
pub open spec fn integer_part(a: Accum) -> int {
    match a {
        Accum::IntSum(x) => x as int,
        _ => 0,
    }
}

/// Which two of three states without floating-point sums are merged first does not matter, as long
/// as integer sums fit.
pub proof fn lemma_merged_associates(a: Accum, b: Accum, c: Accum)
    requires
        same_kind(a, b),
        same_kind(b, c),
        unrounded(a),
        unrounded(b),
        unrounded(c),
        i128::MIN <= integer_part(a) + integer_part(b) <= i128::MAX,
        i128::MIN <= integer_part(b) + integer_part(c) <= i128::MAX,
        i128::MIN <= integer_part(a) + integer_part(b) + integer_part(c) <= i128::MAX,
    ensures
        combine::merged(combine::merged(a, b), c) == combine::merged(a, combine::merged(b, c)),
{
    match (a, b, c) {
        (Accum::Min(x), Accum::Min(y), Accum::Min(z)) => {
            lemma_known_associates(x, y, z);
        },
        (Accum::Max(x), Accum::Max(y), Accum::Max(z)) => {
            lemma_known_associates(x, y, z);
        },
        _ => {},
    }
}

proof fn lemma_known_associates(x: Option<Float>, y: Option<Float>, z: Option<Float>)
    ensures
        combine::min_known(combine::min_known(x, y), z) == combine::min_known(
            x,
            combine::min_known(y, z),
        ),
        combine::max_known(combine::max_known(x, y), z) == combine::max_known(
            x,
            combine::max_known(y, z),
        ),
        combine::min_known(x, y) == combine::min_known(y, x),
        combine::max_known(x, y) == combine::max_known(y, x),
{
    if x is Some && y is Some {
        float::lemma_min_max(x->0, y->0, y->0);
        if z is Some {
            float::lemma_min_max(x->0, y->0, z->0);
        }
    }
}

/// The state of an aggregate before any row changes no other state of it.
pub proof fn lemma_start_is_identity(agg: AggView, a: Accum)
    requires
        same_kind(a, agg.start()),
    ensures
        combine::merged(a, agg.start()) == a,
        combine::merged(agg.start(), a) == a,
{
}

/// A partial result without groups changes no other.
pub proof fn lemma_empty_is_identity(groups: GroupsView)
    ensures
        combine::merged_groups(groups, Map::empty()) == groups,
        combine::merged_groups(Map::empty(), groups) == groups,
{
    assert(combine::merged_groups(groups, Map::empty()) =~= groups);
    assert(combine::merged_groups(Map::empty(), groups) =~= groups);
}

/// An empty shard changes nothing, wherever it comes.
pub proof fn lemma_empty_shards_harmless(parts: Seq<PartialView>, at: int, empty: PartialView)
    requires
        0 <= at <= parts.len(),
        empty.groups == Map::<Seq<Seq<char>>, Seq<Accum>>::empty(),
    ensures
        combine::reduced(parts.insert(at, empty)) == combine::reduced(parts),
    decreases parts.len() - at,
{
    let longer = parts.insert(at, empty);
    if at == parts.len() {
        assert(longer.drop_last() =~= parts);
        lemma_empty_is_identity(combine::reduced(parts));
    } else {
        lemma_empty_shards_harmless(parts.drop_last(), at, empty);
        assert(longer.drop_last() =~= parts.drop_last().insert(at, empty));
        assert(longer.last() == parts.last());
    }
}

/// Two groups of states, place by place of one aggregate.
pub open spec fn same_kinds(a: GroupsView, b: GroupsView) -> bool {
    forall|k: Seq<Seq<char>>|
        a.dom().contains(k) && b.dom().contains(k) ==> (#[trigger] a[k]).len() == b[k].len()
            && forall|i: int| 0 <= i < a[k].len() ==> same_kind(#[trigger] a[k][i], b[k][i])
}

/// It does not matter which of two partial results of one query is merged into the other.
pub proof fn lemma_merge_commutes(a: GroupsView, b: GroupsView)
    requires
        same_kinds(a, b),
    ensures
        combine::merged_groups(a, b) == combine::merged_groups(b, a),
{
    let ab = combine::merged_groups(a, b);
    let ba = combine::merged_groups(b, a);
    assert forall|k: Seq<Seq<char>>| ab.dom().contains(k) implies ab[k] == ba[k] by {
        if a.dom().contains(k) && b.dom().contains(k) {
            assert(a[k].len() == b[k].len());
            assert forall|i: int| 0 <= i < a[k].len() implies combine::merged_states(a[k], b[k])[i]
                == combine::merged_states(b[k], a[k])[i] by {
                assert(same_kind(a[k][i], b[k][i]));
                lemma_merged_commutes(a[k][i], b[k][i]);
            }
            assert(combine::merged_states(a[k], b[k]) =~= combine::merged_states(b[k], a[k]));
        }
    }
    assert(ab =~= ba);
}

/// The state of an aggregate after rows.
pub open spec fn state(agg: AggView, rows: Seq<RowView>) -> Accum {
    rows.fold_left(agg.start(), |acc: Accum, row: RowView| agg.after(acc, row))
}

/// The rows that belong to a group and meet the condition.
pub open spec fn group_rows(q: QueryView, rows: Seq<RowView>, key: Seq<Seq<char>>) -> Seq<RowView> {
    rows.filter(|row: RowView| in_group(q, row, key))
}

pub open spec fn in_group(q: QueryView, row: RowView, key: Seq<Seq<char>>) -> bool {
    query::meets(q.predicate, row) && query::key_of(q.group_by, row) == key
}

/// The states of a group after its rows.
pub open spec fn states(q: QueryView, rows: Seq<RowView>) -> Seq<Accum> {
    Seq::new(q.aggregates.len(), |i: int| state(q.aggregates[i], rows))
}

/// The groups of a query are those of its rows, each with the states after the rows of the group.
pub proof fn lemma_mapped(q: QueryView, rows: Seq<RowView>, key: Seq<Seq<char>>)
    ensures
        q.mapped(rows).dom().contains(key) <==> group_rows(q, rows, key).len() > 0,
        q.mapped(rows).dom().contains(key) ==> q.mapped(rows)[key] == states(
            q,
            group_rows(q, rows, key),
        ),
    decreases rows.len(),
{
    let p = |row: RowView| in_group(q, row, key);
    reveal(Seq::filter);
    if rows.len() > 0 {
        let before = rows.drop_last();
        let row = rows.last();
        lemma_mapped(q, before, key);
        let mine = group_rows(q, before, key);
        if in_group(q, row, key) {
            assert(group_rows(q, rows, key) == mine.push(row));
            let now = mine.push(row);
            assert(now.drop_last() =~= mine);
            if mine.len() == 0 {
                assert(mine =~= Seq::<RowView>::empty());
                assert(states(q, mine) =~= query::start_states(q.aggregates));
            }
            assert(states(q, now) =~= query::next_states(q.aggregates, states(q, mine), row)) by {
                assert forall|i: int| 0 <= i < q.aggregates.len() implies state(
                    q.aggregates[i],
                    now,
                ) == q.aggregates[i].after(state(q.aggregates[i], mine), row) by {
                    assert(now.last() == row);
                }
            }
        } else {
            assert(group_rows(q, rows, key) == mine);
        }
    }
}

/// The sum of `f` over rows.
pub open spec fn sum_over(rows: Seq<RowView>, f: spec_fn(RowView) -> int) -> int {
    rows.fold_left(0int, |acc: int, row: RowView| acc + f(row))
}

/// The exact integer in a column, 0 where there is none.
pub open spec fn whole(column: Seq<char>) -> spec_fn(RowView) -> int {
    |row: RowView|
        match query::number_value(query::cell_value(row, column)) {
            Some(Num::Int(i)) => i as int,
            _ => 0,
        }
}

pub open spec fn size(f: spec_fn(RowView) -> int) -> spec_fn(RowView) -> int {
    |row: RowView| float::magnitude_of(f(row)) as int
}

/// A number is a number of steps of 2 to the power `k` units, as many as go without rounding.
pub open spec fn is_steps(f: Float, k: nat) -> bool {
    exists|i: int| is_so_many_steps(f, k, i)
}

pub open spec fn is_so_many_steps(f: Float, k: nat, i: int) -> bool {
    float::magnitude_of(i) <= float::whole_limit() && f == float::on_grid(i, k)
}

/// How many steps a number is.
pub open spec fn steps(f: Float, k: nat) -> int {
    choose|i: int| is_so_many_steps(f, k, i)
}

/// How many steps an integer of 1 is.
pub open spec fn steps_of_one(k: nat) -> nat {
    vstd::arithmetic::power2::pow2((1074 - k) as nat)
}

/// How many steps the number that a sum takes from a row is, 0 where it takes none.
pub open spec fn sum_steps(column: Seq<char>, k: nat) -> spec_fn(RowView) -> int {
    |row: RowView|
        match query::number_value(query::cell_value(row, column)) {
            Some(Num::Int(i)) => i * steps_of_one(k),
            Some(Num::Float(f)) => steps(f, k),
            None => 0,
        }
}

/// How many steps the number that a mean takes from a row is, 0 where it takes none.
pub open spec fn mean_steps(column: Seq<char>, k: nat) -> spec_fn(RowView) -> int {
    |row: RowView|
        match query::float_value(query::cell_value(row, column)) {
            Some(f) => steps(f, k),
            None => 0,
        }
}

/// 1 where a mean takes a number from a row, 0 where not.
pub open spec fn counted(column: Seq<char>) -> spec_fn(RowView) -> int {
    |row: RowView|
        match query::float_value(query::cell_value(row, column)) {
            Some(_) => 1,
            None => 0,
        }
}

/// A sum takes a floating-point number from the row.
pub open spec fn has_fraction(row: RowView, column: Seq<char>) -> bool {
    query::number_value(query::cell_value(row, column)) matches Some(Num::Float(_))
}

/// A sum takes a floating-point number from one of the rows.
pub open spec fn any_fraction(rows: Seq<RowView>, column: Seq<char>) -> bool {
    exists|i: int| 0 <= i < rows.len() && has_fraction(#[trigger] rows[i], column)
}

pub open spec fn no_fraction(column: Seq<char>) -> spec_fn(RowView) -> bool {
    |row: RowView| !has_fraction(row, column)
}

pub open spec fn sum_fits(column: Seq<char>, k: nat) -> spec_fn(RowView) -> bool {
    |row: RowView|
        query::number_value(query::cell_value(row, column)) matches Some(Num::Float(f)) ==> is_steps(f, k)
}

pub open spec fn mean_fits(column: Seq<char>, k: nat) -> spec_fn(RowView) -> bool {
    |row: RowView|
        query::float_value(query::cell_value(row, column)) matches Some(f) ==> is_steps(f, k)
}

/// Every row is fit, and the magnitudes of `f` over the rows add up to no more than `most`.
pub open spec fn fit(
    rows: Seq<RowView>,
    ok: spec_fn(RowView) -> bool,
    f: spec_fn(RowView) -> int,
    most: int,
) -> bool {
    &&& forall|i: int| 0 <= i < rows.len() ==> ok(#[trigger] rows[i])
    &&& sum_over(rows, size(f)) <= most
}

/// A sum takes only integers, whose magnitudes add up to no more than an `i128` holds.
pub open spec fn integers(rows: Seq<RowView>, column: Seq<char>) -> bool {
    fit(rows, no_fraction(column), whole(column), i128::MAX as int)
}

/// The numbers that a sum takes have a common step, and their magnitudes add up to no more steps than
/// go without rounding.
pub open spec fn sum_on_grid(rows: Seq<RowView>, column: Seq<char>, k: nat) -> bool {
    k <= 1074 && fit(rows, sum_fits(column, k), sum_steps(column, k), float::whole_limit() as int)
}

/// The numbers that a mean takes have a common step, and their magnitudes add up to no more steps than
/// go without rounding.
pub open spec fn mean_on_grid(rows: Seq<RowView>, column: Seq<char>, k: nat) -> bool {
    k <= 1074 && fit(rows, mean_fits(column, k), mean_steps(column, k), float::whole_limit() as int)
}

/// The sums of an aggregate over rows are exact in whatever order they are taken: no sum is larger
/// than it can be held without rounding. Aggregates without sums always are.
pub open spec fn exact(agg: AggView, rows: Seq<RowView>) -> bool {
    match agg {
        AggView::Sum(c) => integers(rows, c) || exists|k: nat| sum_on_grid(rows, c, k),
        AggView::Avg(c) => exists|k: nat| mean_on_grid(rows, c, k),
        _ => true,
    }
}

/// The sums of all aggregates of a query over rows are exact.
pub open spec fn exact_query(q: QueryView, rows: Seq<RowView>) -> bool {
    forall|i: int| 0 <= i < q.aggregates.len() ==> exact(#[trigger] q.aggregates[i], rows)
}

pub(crate) proof fn lemma_sum_push(rows: Seq<RowView>, row: RowView, f: spec_fn(RowView) -> int)
    ensures
        sum_over(rows.push(row), f) == sum_over(rows, f) + f(row),
{
    assert(rows.push(row).drop_last() =~= rows);
}

pub(crate) proof fn lemma_sum_bounds(rows: Seq<RowView>, f: spec_fn(RowView) -> int)
    ensures
        float::magnitude_of(sum_over(rows, f)) <= sum_over(rows, size(f)),
        sum_over(rows, size(f)) >= 0,
    decreases rows.len(),
{
    if rows.len() > 0 {
        let rest = rows.drop_last();
        lemma_sum_bounds(rest, f);
        assert(rows =~= rest.push(rows.last()));
        lemma_sum_push(rest, rows.last(), f);
        lemma_sum_push(rest, rows.last(), size(f));
    }
}

pub(crate) proof fn lemma_sum_concat(a: Seq<RowView>, b: Seq<RowView>, f: spec_fn(RowView) -> int)
    ensures
        sum_over(a + b, f) == sum_over(a, f) + sum_over(b, f),
    decreases b.len(),
{
    if b.len() > 0 {
        let rest = b.drop_last();
        lemma_sum_concat(a, rest, f);
        assert(b =~= rest.push(b.last()));
        assert(a + b =~= (a + rest).push(b.last()));
        lemma_sum_push(a + rest, b.last(), f);
        lemma_sum_push(rest, b.last(), f);
    } else {
        assert(a + b =~= a);
    }
}

pub(crate) proof fn lemma_sum_permutation(a: Seq<RowView>, b: Seq<RowView>, f: spec_fn(RowView) -> int)
    requires
        a.to_multiset() == b.to_multiset(),
    ensures
        sum_over(a, f) == sum_over(b, f),
{
    let g = |acc: int, row: RowView| acc + f(row);
    assert(commutative_foldl(g));
    lemma_fold_left_permutation(a, b, g, 0int);
}

pub(crate) proof fn lemma_fit_parts(
    a: Seq<RowView>,
    b: Seq<RowView>,
    ok: spec_fn(RowView) -> bool,
    f: spec_fn(RowView) -> int,
    most: int,
)
    requires
        fit(a + b, ok, f, most),
    ensures
        fit(a, ok, f, most),
        fit(b, ok, f, most),
        sum_over(a, size(f)) + sum_over(b, size(f)) <= most,
{
    assert forall|i: int| 0 <= i < a.len() implies ok(#[trigger] a[i]) by {
        assert((a + b)[i] == a[i]);
    }
    assert forall|i: int| 0 <= i < b.len() implies ok(#[trigger] b[i]) by {
        assert((a + b)[a.len() + i] == b[i]);
    }
    lemma_sum_concat(a, b, size(f));
    lemma_sum_bounds(a, f);
    lemma_sum_bounds(b, f);
}

pub(crate) proof fn lemma_fit_filtered(
    rows: Seq<RowView>,
    p: spec_fn(RowView) -> bool,
    ok: spec_fn(RowView) -> bool,
    f: spec_fn(RowView) -> int,
    most: int,
)
    requires
        fit(rows, ok, f, most),
    ensures
        fit(rows.filter(p), ok, f, most),
        sum_over(rows.filter(p), size(f)) <= sum_over(rows, size(f)),
    decreases rows.len(),
{
    reveal(Seq::filter);
    if rows.len() > 0 {
        let rest = rows.drop_last();
        let row = rows.last();
        assert(rows =~= rest + seq![row]);
        assert(rows =~= rest.push(row));
        lemma_fit_parts(rest, seq![row], ok, f, most);
        lemma_fit_filtered(rest, p, ok, f, most);
        let kept = rest.filter(p);
        assert(ok(rows[rows.len() - 1]));
        lemma_sum_push(rest, row, size(f));
        lemma_sum_push(kept, row, size(f));
        if p(row) {
            assert(rows.filter(p) == kept.push(row));
        }
    } else {
        assert(rows.filter(p) =~= rows);
    }
}

pub(crate) proof fn lemma_fit_permutation(
    a: Seq<RowView>,
    b: Seq<RowView>,
    ok: spec_fn(RowView) -> bool,
    f: spec_fn(RowView) -> int,
    most: int,
)
    requires
        fit(a, ok, f, most),
        a.to_multiset() == b.to_multiset(),
    ensures
        fit(b, ok, f, most),
{
    assert forall|i: int| 0 <= i < b.len() implies ok(#[trigger] b[i]) by {
        assert(b.contains(b[i]));
        sort::lemma_same_members(b, a, b[i]);
        let j = choose|j: int| 0 <= j < a.len() && a[j] == b[i];
        assert(ok(a[j]));
    }
    lemma_sum_permutation(a, b, size(f));
}

/// Where sums over rows are exact, so are those over parts of them.
pub proof fn lemma_exact_parts(agg: AggView, a: Seq<RowView>, b: Seq<RowView>)
    requires
        exact(agg, a + b),
    ensures
        exact(agg, a),
        exact(agg, b),
{
    let most = float::whole_limit() as int;
    match agg {
        AggView::Sum(c) => {
            if integers(a + b, c) {
                lemma_fit_parts(a, b, no_fraction(c), whole(c), i128::MAX as int);
            } else {
                let k = choose|k: nat| sum_on_grid(a + b, c, k);
                lemma_fit_parts(a, b, sum_fits(c, k), sum_steps(c, k), most);
                assert(sum_on_grid(a, c, k) && sum_on_grid(b, c, k));
            }
        },
        AggView::Avg(c) => {
            let k = choose|k: nat| mean_on_grid(a + b, c, k);
            lemma_fit_parts(a, b, mean_fits(c, k), mean_steps(c, k), most);
            assert(mean_on_grid(a, c, k) && mean_on_grid(b, c, k));
        },
        _ => {},
    }
}

pub(crate) proof fn lemma_exact_filtered(agg: AggView, rows: Seq<RowView>, p: spec_fn(RowView) -> bool)
    requires
        exact(agg, rows),
    ensures
        exact(agg, rows.filter(p)),
{
    let most = float::whole_limit() as int;
    match agg {
        AggView::Sum(c) => {
            if integers(rows, c) {
                lemma_fit_filtered(rows, p, no_fraction(c), whole(c), i128::MAX as int);
            } else {
                let k = choose|k: nat| sum_on_grid(rows, c, k);
                lemma_fit_filtered(rows, p, sum_fits(c, k), sum_steps(c, k), most);
                assert(sum_on_grid(rows.filter(p), c, k));
            }
        },
        AggView::Avg(c) => {
            let k = choose|k: nat| mean_on_grid(rows, c, k);
            lemma_fit_filtered(rows, p, mean_fits(c, k), mean_steps(c, k), most);
            assert(mean_on_grid(rows.filter(p), c, k));
        },
        _ => {},
    }
}

/// A floating-point sum that is exact: so many steps, and nothing lost.
pub open spec fn grid_sum(i: int, k: nat) -> KahanSum {
    KahanSum { sum: float::on_grid(i, k), comp: combine::zero_float() }
}

/// Sums of steps are exact as long as there are not too many.
proof fn lemma_grid_with(a: int, b: int, k: nat)
    requires
        float::magnitude_of(a) + float::magnitude_of(b) <= float::whole_limit(),
        k <= 1074,
    ensures
        grid_sum(a, k).with(float::on_grid(b, k)) == grid_sum(a + b, k),
        grid_sum(a, k).joined(grid_sum(b, k)) == grid_sum(a + b, k),
        KahanSum::nothing() == grid_sum(0, k),
{
    let x = float::on_grid(a, k);
    let y = float::on_grid(b, k);
    let zero = combine::zero_float();
    float::lemma_grid(0, k);
    float::lemma_grid(a, k);
    float::lemma_grid(b, k);
    float::lemma_grid(a + b, k);
    float::lemma_grid_sum(a, b, k);
    float::lemma_grid_sum(a, a + b, k);
    float::lemma_grid_sum(b, a + b, k);
    float::lemma_grid_sum(-b, b, k);
    float::lemma_grid_sum(-a, a, k);
    float::lemma_grid_sum(0, 0, k);
    assert(a - (a + b) == -b && b - (a + b) == -a);
    assert(combine::lost(x, y) == zero);
    if grid_sum(b, k) == KahanSum::nothing() {
        float::lemma_grid_injective(b, 0, k);
    }
    if grid_sum(a, k) == KahanSum::nothing() {
        float::lemma_grid_injective(a, 0, k);
    }
}

/// An integer sum as a floating-point one is so many steps.
proof fn lemma_promoted(i: int, k: nat)
    requires
        float::magnitude_of(i * steps_of_one(k)) <= float::whole_limit(),
        k <= 1074,
    ensures
        combine::promoted(i) == grid_sum(i * steps_of_one(k), k),
        float::nearest_int(i) == float::on_grid(i * steps_of_one(k), k),
{
    float::lemma_integer_on_grid(i, k);
    lemma_grid_with(0, i * steps_of_one(k), k);
}

/// An integer has no fewer steps than itself.
proof fn lemma_steps_at_least(i: int, k: nat)
    ensures
        float::magnitude_of(i) <= float::magnitude_of(i * steps_of_one(k)),
{
    let up = steps_of_one(k);
    vstd::arithmetic::power2::lemma_pow2_pos((1074 - k) as nat);
    assert(float::magnitude_of(i) <= float::magnitude_of(i * up)) by (nonlinear_arith)
        requires
            up >= 1,
    ;
}

/// How many steps a number is, is what it says.
pub proof fn lemma_steps(f: Float, k: nat)
    requires
        is_steps(f, k),
    ensures
        f == float::on_grid(steps(f, k), k),
        float::magnitude_of(steps(f, k)) <= float::whole_limit(),
{
    assert(is_so_many_steps(f, k, steps(f, k)));
}

/// A count that does not run over.
pub open spec fn capped(n: int) -> u64 {
    if n > u64::MAX {
        u64::MAX
    } else {
        n as u64
    }
}

/// Where a sum takes only integers and they fit, it is their sum, and an integer.
pub proof fn lemma_integer_sum_is_exact(column: Seq<char>, rows: Seq<RowView>)
    requires
        integers(rows, column),
    ensures
        i128::MIN <= sum_over(rows, whole(column)) <= i128::MAX,
        state(AggView::Sum(column), rows) == Accum::IntSum(sum_over(rows, whole(column)) as i128),
        combine::final_value(state(AggView::Sum(column), rows)) == JsonView::Number(
            Num::Int(sum_over(rows, whole(column)) as i128),
        ),
    decreases rows.len(),
{
    lemma_sum_bounds(rows, whole(column));
    if rows.len() > 0 {
        let rest = rows.drop_last();
        let row = rows.last();
        assert(rows =~= rest + seq![row]);
        assert(rows =~= rest.push(row));
        lemma_fit_parts(rest, seq![row], no_fraction(column), whole(column), i128::MAX as int);
        lemma_integer_sum_is_exact(column, rest);
        lemma_sum_push(rest, row, whole(column));
        assert(no_fraction(column)(rows[rows.len() - 1]));
    }
}

/// The state of a sum that is exact: an integer sum until a floating-point number comes, and so many
/// steps from there on.
pub open spec fn sum_state(rows: Seq<RowView>, column: Seq<char>, k: nat) -> Accum {
    if any_fraction(rows, column) {
        Accum::Sum(grid_sum(sum_over(rows, sum_steps(column, k)), k))
    } else {
        Accum::IntSum(sum_over(rows, whole(column)) as i128)
    }
}

proof fn lemma_any_fraction_push(rows: Seq<RowView>, row: RowView, column: Seq<char>)
    ensures
        any_fraction(rows.push(row), column) == (any_fraction(rows, column) || has_fraction(row, column)),
{
    let now = rows.push(row);
    if any_fraction(rows, column) {
        let i = choose|i: int| 0 <= i < rows.len() && has_fraction(#[trigger] rows[i], column);
        assert(now[i] == rows[i]);
    }
    if has_fraction(row, column) {
        assert(now[rows.len() as int] == row);
    }
    if any_fraction(now, column) {
        let i = choose|i: int| 0 <= i < now.len() && has_fraction(#[trigger] now[i], column);
        if i < rows.len() {
            assert(rows[i] == now[i]);
        }
    }
}

/// Where the numbers that a sum takes have a common step and are not too many, it is their sum.
pub proof fn lemma_sum_is_exact(column: Seq<char>, rows: Seq<RowView>, k: nat)
    requires
        sum_on_grid(rows, column, k),
    ensures
        state(AggView::Sum(column), rows) == sum_state(rows, column, k),
        float::magnitude_of(sum_over(rows, sum_steps(column, k))) <= float::whole_limit(),
        !any_fraction(rows, column) ==> sum_over(rows, sum_steps(column, k)) == sum_over(
            rows,
            whole(column),
        ) * steps_of_one(k) && float::magnitude_of(sum_over(rows, whole(column)))
            <= float::whole_limit(),
    decreases rows.len(),
{
    let most = float::whole_limit() as int;
    let f = sum_steps(column, k);
    lemma_sum_bounds(rows, f);
    if rows.len() > 0 {
        let rest = rows.drop_last();
        let row = rows.last();
        assert(rows =~= rest + seq![row]);
        assert(rows =~= rest.push(row));
        lemma_fit_parts(rest, seq![row], sum_fits(column, k), f, most);
        lemma_sum_is_exact(column, rest, k);
        lemma_sum_push(rest, row, f);
        lemma_sum_push(rest, row, size(f));
        lemma_sum_push(rest, row, whole(column));
        lemma_sum_bounds(rest, f);
        lemma_any_fraction_push(rest, row, column);
        assert(sum_fits(column, k)(rows[rows.len() - 1]));
        let x = sum_over(rest, whole(column));
        let up = steps_of_one(k);
        let before = sum_over(rest, f);
        match query::number_value(query::cell_value(row, column)) {
            Some(Num::Int(i)) => {
                assert(x * up + i * up == (x + i) * up) by (nonlinear_arith);
                lemma_steps_at_least(i as int, k);
                lemma_steps_at_least(x + i, k);
                lemma_promoted(i as int, k);
                lemma_grid_with(before, i * up, k);
            },
            Some(Num::Float(v)) => {
                lemma_steps(v, k);
                lemma_grid_with(before, steps(v, k), k);
                if !any_fraction(rest, column) {
                    lemma_promoted(x, k);
                }
            },
            None => {},
        }
    } else {
        assert(0 * steps_of_one(k) == 0);
    }
}

/// Where the numbers that a mean takes have a common step and are not too many, its sum is their sum
/// and its count their number.
pub proof fn lemma_mean_is_exact(column: Seq<char>, rows: Seq<RowView>, k: nat)
    requires
        mean_on_grid(rows, column, k),
    ensures
        state(AggView::Avg(column), rows) == (Accum::Avg {
            sum: grid_sum(sum_over(rows, mean_steps(column, k)), k),
            count: capped(sum_over(rows, counted(column))),
        }),
        sum_over(rows, counted(column)) >= 0,
        float::magnitude_of(sum_over(rows, mean_steps(column, k))) <= float::whole_limit(),
    decreases rows.len(),
{
    let most = float::whole_limit() as int;
    let f = mean_steps(column, k);
    lemma_sum_bounds(rows, f);
    if rows.len() > 0 {
        let rest = rows.drop_last();
        let row = rows.last();
        assert(rows =~= rest + seq![row]);
        assert(rows =~= rest.push(row));
        lemma_fit_parts(rest, seq![row], mean_fits(column, k), f, most);
        lemma_mean_is_exact(column, rest, k);
        lemma_sum_push(rest, row, f);
        lemma_sum_push(rest, row, size(f));
        lemma_sum_push(rest, row, counted(column));
        lemma_sum_bounds(rest, f);
        assert(mean_fits(column, k)(rows[rows.len() - 1]));
        if let Some(v) = query::float_value(query::cell_value(row, column)) {
            lemma_steps(v, k);
            lemma_grid_with(sum_over(rest, f), steps(v, k), k);
        }
    } else {
        lemma_grid_with(0, 0, k);
    }
}

proof fn lemma_any_fraction_concat(a: Seq<RowView>, b: Seq<RowView>, column: Seq<char>)
    ensures
        any_fraction(a + b, column) == (any_fraction(a, column) || any_fraction(b, column)),
{
    if any_fraction(a, column) {
        let i = choose|i: int| 0 <= i < a.len() && has_fraction(#[trigger] a[i], column);
        assert((a + b)[i] == a[i]);
    }
    if any_fraction(b, column) {
        let i = choose|i: int| 0 <= i < b.len() && has_fraction(#[trigger] b[i], column);
        assert((a + b)[a.len() + i] == b[i]);
    }
    if any_fraction(a + b, column) {
        let i = choose|i: int| 0 <= i < (a + b).len() && has_fraction(#[trigger] (a + b)[i], column);
        if i < a.len() {
            assert(a[i] == (a + b)[i]);
        } else {
            assert(b[i - a.len()] == (a + b)[i]);
        }
    }
}

proof fn lemma_any_fraction_permutation(a: Seq<RowView>, b: Seq<RowView>, column: Seq<char>)
    requires
        a.to_multiset() == b.to_multiset(),
        any_fraction(a, column),
    ensures
        any_fraction(b, column),
{
    let i = choose|i: int| 0 <= i < a.len() && has_fraction(#[trigger] a[i], column);
    assert(a.contains(a[i]));
    sort::lemma_same_members(a, b, a[i]);
    let j = choose|j: int| 0 <= j < b.len() && b[j] == a[i];
    assert(has_fraction(b[j], column));
}

/// The state after rows is of its aggregate.
proof fn lemma_state_kind(agg: AggView, rows: Seq<RowView>)
    ensures
        same_kind(state(agg, rows), agg.start()),
    decreases rows.len(),
{
    if rows.len() > 0 {
        lemma_state_kind(agg, rows.drop_last());
    }
}

/// The state after two runs of rows is that of the one merged with that of the other.
#[verifier::spinoff_prover]
#[verifier::rlimit(40)]
pub proof fn lemma_state_concat(agg: AggView, a: Seq<RowView>, b: Seq<RowView>)
    requires
        exact(agg, a + b),
    ensures
        state(agg, a + b) == combine::merged(state(agg, a), state(agg, b)),
    decreases b.len(),
{
    lemma_exact_parts(agg, a, b);
    lemma_state_kind(agg, a);
    match agg {
        AggView::Sum(c) => {
            if integers(a + b, c) {
                lemma_fit_parts(a, b, no_fraction(c), whole(c), i128::MAX as int);
                lemma_integer_sum_is_exact(c, a);
                lemma_integer_sum_is_exact(c, b);
                lemma_integer_sum_is_exact(c, a + b);
                lemma_sum_concat(a, b, whole(c));
            } else {
                let k = choose|k: nat| sum_on_grid(a + b, c, k);
                let most = float::whole_limit() as int;
                let f = sum_steps(c, k);
                lemma_fit_parts(a, b, sum_fits(c, k), f, most);
                lemma_sum_is_exact(c, a, k);
                lemma_sum_is_exact(c, b, k);
                lemma_sum_is_exact(c, a + b, k);
                lemma_any_fraction_concat(a, b, c);
                lemma_sum_concat(a, b, f);
                lemma_sum_concat(a, b, whole(c));
                lemma_sum_bounds(a, f);
                lemma_sum_bounds(b, f);
                let (x, y) = (sum_over(a, f), sum_over(b, f));
                lemma_grid_with(x, y, k);
                if !any_fraction(a, c) {
                    lemma_promoted(sum_over(a, whole(c)), k);
                    if sum_over(a, whole(c)) == 0 {
                        assert(0 * steps_of_one(k) == 0);
                    }
                }
                if !any_fraction(b, c) {
                    lemma_promoted(sum_over(b, whole(c)), k);
                    if sum_over(b, whole(c)) == 0 {
                        assert(0 * steps_of_one(k) == 0);
                    }
                }
            }
        },
        AggView::Avg(c) => {
            let k = choose|k: nat| mean_on_grid(a + b, c, k);
            let f = mean_steps(c, k);
            lemma_fit_parts(a, b, mean_fits(c, k), f, float::whole_limit() as int);
            lemma_mean_is_exact(c, a, k);
            lemma_mean_is_exact(c, b, k);
            lemma_mean_is_exact(c, a + b, k);
            lemma_sum_concat(a, b, f);
            lemma_sum_concat(a, b, counted(c));
            lemma_sum_bounds(a, f);
            lemma_sum_bounds(b, f);
            lemma_grid_with(sum_over(a, f), sum_over(b, f), k);
        },
        _ => {
            if b.len() > 0 {
                let rest = b.drop_last();
                let row = b.last();
                assert((a + b).drop_last() =~= a + rest);
                assert((a + b).last() == row);
                lemma_state_concat(agg, a, rest);
                lemma_state_kind(agg, rest);
                match agg {
                    AggView::Min(c) => {
                        lemma_known_associates(
                            state(agg, a)->Min_0,
                            state(agg, rest)->Min_0,
                            query::float_value(query::cell_value(row, c)),
                        );
                    },
                    AggView::Max(c) => {
                        lemma_known_associates(
                            state(agg, a)->Max_0,
                            state(agg, rest)->Max_0,
                            query::float_value(query::cell_value(row, c)),
                        );
                    },
                    _ => {},
                }
            } else {
                assert(a + b =~= a);
                lemma_start_is_identity(agg, state(agg, a));
            }
        },
    }
}

/// Which of the partial results of two runs of rows is merged into the other does not matter, whatever
/// the rows are.
pub proof fn lemma_partials_commute(q: QueryView, a: Seq<RowView>, b: Seq<RowView>)
    ensures
        combine::merged_groups(q.mapped(a), q.mapped(b)) == combine::merged_groups(
            q.mapped(b),
            q.mapped(a),
        ),
{
    let x = q.mapped(a);
    let y = q.mapped(b);
    assert forall|k: Seq<Seq<char>>| x.dom().contains(k) && y.dom().contains(k) implies (
    #[trigger] x[k]).len() == y[k].len() && forall|i: int|
        0 <= i < x[k].len() ==> same_kind(#[trigger] x[k][i], y[k][i]) by {
        lemma_mapped(q, a, k);
        lemma_mapped(q, b, k);
        assert forall|i: int| 0 <= i < x[k].len() implies same_kind(#[trigger] x[k][i], y[k][i]) by {
            lemma_state_kind(q.aggregates[i], group_rows(q, a, k));
            lemma_state_kind(q.aggregates[i], group_rows(q, b, k));
        }
    }
    lemma_merge_commutes(x, y);
}

/// The order of rows does not matter to the state after them.
pub proof fn lemma_state_permutation(agg: AggView, a: Seq<RowView>, b: Seq<RowView>)
    requires
        exact(agg, a),
        exact(agg, b),
        a.to_multiset() == b.to_multiset(),
    ensures
        state(agg, a) == state(agg, b),
{
    match agg {
        AggView::Sum(c) => {
            lemma_sum_permutation(a, b, whole(c));
            if integers(a, c) {
                lemma_fit_permutation(a, b, no_fraction(c), whole(c), i128::MAX as int);
                lemma_integer_sum_is_exact(c, a);
                lemma_integer_sum_is_exact(c, b);
            } else {
                let k = choose|k: nat| sum_on_grid(a, c, k);
                let f = sum_steps(c, k);
                lemma_fit_permutation(a, b, sum_fits(c, k), f, float::whole_limit() as int);
                lemma_sum_is_exact(c, a, k);
                lemma_sum_is_exact(c, b, k);
                lemma_sum_permutation(a, b, f);
                if any_fraction(a, c) {
                    lemma_any_fraction_permutation(a, b, c);
                }
                if any_fraction(b, c) {
                    lemma_any_fraction_permutation(b, a, c);
                }
            }
        },
        AggView::Avg(c) => {
            let k = choose|k: nat| mean_on_grid(a, c, k);
            let f = mean_steps(c, k);
            lemma_fit_permutation(a, b, mean_fits(c, k), f, float::whole_limit() as int);
            lemma_mean_is_exact(c, a, k);
            lemma_mean_is_exact(c, b, k);
            lemma_sum_permutation(a, b, f);
            lemma_sum_permutation(a, b, counted(c));
        },
        _ => {
            let f = |acc: Accum, row: RowView| agg.after(acc, row);
            assert forall|x: RowView, y: RowView, v: Accum| #[trigger]
                f(f(v, x), y) == f(f(v, y), x) by {
                match (agg, v) {
                    (AggView::Min(c), Accum::Min(m)) => {
                        let p = query::float_value(query::cell_value(x, c));
                        let q = query::float_value(query::cell_value(y, c));
                        lemma_known_associates(m, p, q);
                        lemma_known_associates(m, q, p);
                        lemma_known_associates(p, q, q);
                    },
                    (AggView::Max(c), Accum::Max(m)) => {
                        let p = query::float_value(query::cell_value(x, c));
                        let q = query::float_value(query::cell_value(y, c));
                        lemma_known_associates(m, p, q);
                        lemma_known_associates(m, q, p);
                        lemma_known_associates(p, q, q);
                    },
                    _ => {},
                }
            }
            lemma_fold_left_permutation(a, b, f, agg.start());
        },
    }
}

/// Rows mapped in two parts, and the parts merged, give what mapping them at once gives.
pub proof fn lemma_map_concat(q: QueryView, a: Seq<RowView>, b: Seq<RowView>)
    requires
        exact_query(q, a + b),
    ensures
        q.mapped(a + b) == combine::merged_groups(q.mapped(a), q.mapped(b)),
{
    let whole_map = q.mapped(a + b);
    let parts = combine::merged_groups(q.mapped(a), q.mapped(b));
    assert forall|k: Seq<Seq<char>>|
        (whole_map.dom().contains(k) <==> parts.dom().contains(k)) && (whole_map.dom().contains(k)
            ==> #[trigger] whole_map[k] == parts[k]) by {
        lemma_mapped(q, a, k);
        lemma_mapped(q, b, k);
        lemma_mapped(q, a + b, k);
        let p = |row: RowView| in_group(q, row, k);
        let x = group_rows(q, a, k);
        let y = group_rows(q, b, k);
        Seq::filter_distributes_over_add(a, b, p);
        assert(group_rows(q, a + b, k) == x + y);
        if whole_map.dom().contains(k) {
            assert forall|i: int| 0 <= i < q.aggregates.len() implies whole_map[k][i] == parts[k][i] by {
                let agg = q.aggregates[i];
                assert(exact(agg, a + b));
                lemma_exact_filtered(agg, a + b, p);
                lemma_state_concat(agg, x, y);
                if x.len() == 0 {
                    assert(x + y =~= y);
                }
                if y.len() == 0 {
                    assert(x + y =~= x);
                }
            }
            assert(whole_map[k] =~= parts[k]);
        }
    }
    assert forall|k: Seq<Seq<char>>| #[trigger]
        whole_map.dom().contains(k) <==> parts.dom().contains(k) by {
        let trigger_term = whole_map[k];
    }
    assert(whole_map =~= parts);
}

/// Merging the partial results of three runs of rows does not depend on which two are merged first.
pub proof fn lemma_merge_associates(q: QueryView, a: Seq<RowView>, b: Seq<RowView>, c: Seq<RowView>)
    requires
        exact_query(q, a + b + c),
    ensures
        combine::merged_groups(
            combine::merged_groups(q.mapped(a), q.mapped(b)),
            q.mapped(c),
        ) == combine::merged_groups(
            q.mapped(a),
            combine::merged_groups(q.mapped(b), q.mapped(c)),
        ),
{
    assert(a + b + c =~= a + (b + c));
    assert forall|i: int| 0 <= i < q.aggregates.len() implies exact(#[trigger] q.aggregates[i], a + b)
        && exact(q.aggregates[i], b + c) by {
        lemma_exact_parts(q.aggregates[i], a + b, c);
        lemma_exact_parts(q.aggregates[i], a, b + c);
    }
    lemma_map_concat(q, a + b, c);
    lemma_map_concat(q, a, b);
    lemma_map_concat(q, b, c);
    lemma_map_concat(q, a, b + c);
}

pub(crate) proof fn lemma_filtered_multiset<T>(s: Seq<T>, p: spec_fn(T) -> bool)
    ensures
        s.filter(p).to_multiset() == s.to_multiset().filter(p),
    decreases s.len(),
{
    reveal(Seq::filter);
    s.to_multiset_ensures();
    s.filter(p).to_multiset_ensures();
    if s.len() > 0 {
        let rest = s.drop_last();
        lemma_filtered_multiset(rest, p);
        rest.to_multiset_ensures();
        rest.filter(p).to_multiset_ensures();
        assert(s =~= rest.push(s.last()));
        assert(s.filter(p).to_multiset() =~= s.to_multiset().filter(p));
    } else {
        assert(s.filter(p).to_multiset() =~= s.to_multiset().filter(p));
    }
}

/// The order of rows does not matter to the groups.
pub proof fn lemma_map_permutation(q: QueryView, a: Seq<RowView>, b: Seq<RowView>)
    requires
        exact_query(q, a),
        a.to_multiset() == b.to_multiset(),
    ensures
        q.mapped(a) == q.mapped(b),
        exact_query(q, b),
{
    let x = q.mapped(a);
    let y = q.mapped(b);
    assert forall|i: int| 0 <= i < q.aggregates.len() implies exact(#[trigger] q.aggregates[i], b) by {
        lemma_exact_permutation(q.aggregates[i], a, b);
    }
    assert forall|k: Seq<Seq<char>>|
        (x.dom().contains(k) <==> y.dom().contains(k)) && (x.dom().contains(k) ==> #[trigger] x[k]
            == y[k]) by {
        lemma_mapped(q, a, k);
        lemma_mapped(q, b, k);
        let p = |row: RowView| in_group(q, row, k);
        let m = group_rows(q, a, k);
        let n = group_rows(q, b, k);
        lemma_filtered_multiset(a, p);
        lemma_filtered_multiset(b, p);
        m.to_multiset_ensures();
        n.to_multiset_ensures();
        assert(m.to_multiset() == n.to_multiset());
        assert(m.len() == n.len());
        assert forall|i: int| 0 <= i < q.aggregates.len() implies states(q, m)[i] == states(q, n)[i] by {
            let agg = q.aggregates[i];
            assert(exact(agg, a) && exact(agg, b));
            lemma_exact_filtered(agg, a, p);
            lemma_exact_filtered(agg, b, p);
            lemma_state_permutation(agg, m, n);
        }
        assert(states(q, m) =~= states(q, n));
    }
    assert forall|k: Seq<Seq<char>>| #[trigger] x.dom().contains(k) <==> y.dom().contains(k) by {
        let trigger_term = x[k];
    }
    assert(x =~= y);
}

pub(crate) proof fn lemma_exact_permutation(agg: AggView, a: Seq<RowView>, b: Seq<RowView>)
    requires
        exact(agg, a),
        a.to_multiset() == b.to_multiset(),
    ensures
        exact(agg, b),
{
    let most = float::whole_limit() as int;
    match agg {
        AggView::Sum(c) => {
            if integers(a, c) {
                lemma_fit_permutation(a, b, no_fraction(c), whole(c), i128::MAX as int);
            } else {
                let k = choose|k: nat| sum_on_grid(a, c, k);
                lemma_fit_permutation(a, b, sum_fits(c, k), sum_steps(c, k), most);
                assert(sum_on_grid(b, c, k));
            }
        },
        AggView::Avg(c) => {
            let k = choose|k: nat| mean_on_grid(a, c, k);
            lemma_fit_permutation(a, b, mean_fits(c, k), mean_steps(c, k), most);
            assert(mean_on_grid(b, c, k));
        },
        _ => {},
    }
}

/// The rows that a query asks for of two runs of rows are those of the one and then those of the
/// other.
pub proof fn lemma_projected_concat(q: QueryView, a: Seq<RowView>, b: Seq<RowView>)
    ensures
        q.projected(a + b) == q.projected(a) + q.projected(b),
    decreases b.len(),
{
    if b.len() == 0 {
        assert(a + b =~= a);
        assert(q.projected(a) + q.projected(b) =~= q.projected(a));
    } else {
        let rest = b.drop_last();
        lemma_projected_concat(q, a, rest);
        assert((a + b).drop_last() =~= a + rest);
        assert((a + b).last() == b.last());
        assert(q.projected(a + b) =~= q.projected(a) + q.projected(b));
    }
}

/// The rows of shards one after another.
pub open spec fn all_rows(shards: Seq<Seq<RowView>>) -> Seq<RowView>
    decreases shards.len(),
{
    if shards.len() == 0 {
        Seq::empty()
    } else {
        all_rows(shards.drop_last()) + shards.last()
    }
}

/// The rows of the first shard come first.
pub proof fn lemma_first_rows(shards: Seq<Seq<RowView>>)
    requires
        shards.len() > 0,
    ensures
        all_rows(shards) == shards[0] + all_rows(shards.skip(1)),
    decreases shards.len(),
{
    let rest = shards.skip(1);
    if shards.len() == 1 {
        assert(all_rows(shards.drop_last()) =~= Seq::<RowView>::empty());
        assert(all_rows(shards) =~= shards[0] + all_rows(rest));
    } else {
        lemma_first_rows(shards.drop_last());
        assert(shards.drop_last().skip(1) =~= rest.drop_last());
        assert(all_rows(shards) =~= shards[0] + all_rows(rest));
    }
}

/// Shards in another order have the same rows, each as many times.
pub proof fn lemma_rows_in_any_order(a: Seq<Seq<RowView>>, b: Seq<Seq<RowView>>)
    requires
        a.to_multiset() == b.to_multiset(),
    ensures
        all_rows(a).to_multiset() == all_rows(b).to_multiset(),
        all_rows(a).len() == all_rows(b).len(),
{
    let f = |acc: Multiset<RowView>, s: Seq<RowView>| acc.add(s.to_multiset());
    assert forall|x: Seq<RowView>, y: Seq<RowView>, v: Multiset<RowView>| #[trigger]
        f(f(v, x), y) == f(f(v, y), x) by {
        assert(f(f(v, x), y) =~= f(f(v, y), x));
    }
    vstd::seq_lib::lemma_fold_left_permutation(a, b, f, Multiset::<RowView>::empty());
    lemma_rows_fold(a);
    lemma_rows_fold(b);
    all_rows(a).to_multiset_ensures();
    all_rows(b).to_multiset_ensures();
}

proof fn lemma_rows_fold(shards: Seq<Seq<RowView>>)
    ensures
        all_rows(shards).to_multiset() == shards.fold_left(
            Multiset::<RowView>::empty(),
            |acc: Multiset<RowView>, s: Seq<RowView>| acc.add(s.to_multiset()),
        ),
    decreases shards.len(),
{
    if shards.len() > 0 {
        lemma_rows_fold(shards.drop_last());
        vstd::seq_lib::lemma_multiset_commutative(all_rows(shards.drop_last()), shards.last());
    } else {
        all_rows(shards).to_multiset_ensures();
        assert(all_rows(shards).to_multiset() =~= Multiset::<RowView>::empty());
    }
}

/// The partial results of shards.
pub open spec fn map_all(q: QueryView, shards: Seq<Seq<RowView>>) -> Seq<PartialView> {
    Seq::new(
        shards.len(),
        |i: int| PartialView { aggregates: q.aggregates, groups: q.mapped(shards[i]) },
    )
}

/// Shards mapped one by one and reduced give what mapping all their rows at once gives.
pub proof fn lemma_shards(q: QueryView, shards: Seq<Seq<RowView>>)
    requires
        exact_query(q, all_rows(shards)),
    ensures
        combine::reduced(map_all(q, shards)) == q.mapped(all_rows(shards)),
    decreases shards.len(),
{
    if shards.len() > 0 {
        let rest = shards.drop_last();
        assert forall|i: int| 0 <= i < q.aggregates.len() implies exact(
            #[trigger] q.aggregates[i],
            all_rows(rest),
        ) by {
            lemma_exact_parts(q.aggregates[i], all_rows(rest), shards.last());
        }
        lemma_shards(q, rest);
        lemma_map_concat(q, all_rows(rest), shards.last());
        assert(map_all(q, shards).drop_last() =~= map_all(q, rest));
    }
}

/// The shards that rows are dealt out to.
pub open spec fn dealt_shards(rows: Seq<RowView>, n: nat) -> Seq<Seq<RowView>> {
    Seq::new(n, |i: int| dataset::dealt(rows, n as int, i))
}

proof fn lemma_all_rows_update(shards: Seq<Seq<RowView>>, at: int, row: RowView)
    requires
        0 <= at < shards.len(),
    ensures
        all_rows(shards.update(at, shards[at].push(row))).to_multiset() == all_rows(
            shards,
        ).to_multiset().insert(row),
    decreases shards.len(),
{
    let now = shards.update(at, shards[at].push(row));
    let rest = shards.drop_last();
    let last = shards.last();
    lemma_multiset_commutative(all_rows(rest), last);
    if at == shards.len() - 1 {
        assert(now.drop_last() =~= rest);
        assert(now.last() == last.push(row));
        assert(all_rows(now) =~= all_rows(shards).push(row));
        all_rows(shards).to_multiset_ensures();
    } else {
        lemma_all_rows_update(rest, at, row);
        assert(now.drop_last() =~= rest.update(at, rest[at].push(row)));
        assert(now.last() == last);
        lemma_multiset_commutative(all_rows(now.drop_last()), last);
        assert(all_rows(now).to_multiset() =~= all_rows(shards).to_multiset().insert(row));
    }
}

proof fn lemma_all_rows_empty(shards: Seq<Seq<RowView>>)
    requires
        forall|i: int| 0 <= i < shards.len() ==> (#[trigger] shards[i]).len() == 0,
    ensures
        all_rows(shards).len() == 0,
    decreases shards.len(),
{
    if shards.len() > 0 {
        assert(shards[shards.len() - 1].len() == 0);
        lemma_all_rows_empty(shards.drop_last());
    }
}

/// Dealing rows out neither loses nor doubles one.
pub proof fn lemma_dealing_keeps_rows(rows: Seq<RowView>, n: nat)
    requires
        n > 0,
    ensures
        all_rows(dealt_shards(rows, n)).to_multiset() == rows.to_multiset(),
    decreases rows.len(),
{
    if rows.len() == 0 {
        lemma_all_rows_empty(dealt_shards(rows, n));
        assert(all_rows(dealt_shards(rows, n)) =~= rows);
    } else {
        let rest = rows.drop_last();
        lemma_dealing_keeps_rows(rest, n);
        let at = (rows.len() - 1) % (n as int);
        vstd::arithmetic::div_mod::lemma_mod_bound(rows.len() - 1, n as int);
        let before = dealt_shards(rest, n);
        assert(dealt_shards(rows, n) =~= before.update(at, before[at].push(rows.last())));
        lemma_all_rows_update(before, at, rows.last());
        assert(rows =~= rest.push(rows.last()));
        rest.to_multiset_ensures();
    }
}

/// The number of shards that rows are dealt out to does not change the answer.
pub proof fn lemma_shard_count_invariance(q: QueryView, rows: Seq<RowView>, n: nat)
    requires
        n > 0,
        exact_query(q, rows),
    ensures
        combine::reduced(map_all(q, dealt_shards(rows, n))) == q.mapped(rows),
{
    lemma_dealing_keeps_rows(rows, n);
    lemma_map_permutation(q, rows, all_rows(dealt_shards(rows, n)));
    lemma_shards(q, dealt_shards(rows, n));
}

proof fn lemma_all_rows_multiset(shards: Seq<Seq<RowView>>)
    ensures
        all_rows(shards).to_multiset() == shards.fold_left(
            Multiset::<RowView>::empty(),
            |acc: Multiset<RowView>, s: Seq<RowView>| acc.add(s.to_multiset()),
        ),
    decreases shards.len(),
{
    if shards.len() > 0 {
        lemma_all_rows_multiset(shards.drop_last());
        lemma_multiset_commutative(all_rows(shards.drop_last()), shards.last());
    } else {
        assert(all_rows(shards).to_multiset() =~= Multiset::empty()) by {
            all_rows(shards).to_multiset_ensures();
        }
    }
}

/// Shard results may be reduced in the order in which they arrive.
pub proof fn lemma_arrival_order(q: QueryView, a: Seq<Seq<RowView>>, b: Seq<Seq<RowView>>)
    requires
        a.to_multiset() == b.to_multiset(),
        exact_query(q, all_rows(a)),
    ensures
        combine::reduced(map_all(q, a)) == combine::reduced(map_all(q, b)),
{
    lemma_all_rows_multiset(a);
    lemma_all_rows_multiset(b);
    let f = |acc: Multiset<RowView>, s: Seq<RowView>| acc.add(s.to_multiset());
    assert forall|x: Seq<RowView>, y: Seq<RowView>, v: Multiset<RowView>| #[trigger]
        f(f(v, x), y) == f(f(v, y), x) by {
        assert(f(f(v, x), y) =~= f(f(v, y), x));
    }
    lemma_fold_left_permutation(a, b, f, Multiset::empty());
    lemma_map_permutation(q, all_rows(a), all_rows(b));
    lemma_shards(q, a);
    lemma_shards(q, b);
}

} // verus!
