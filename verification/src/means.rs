//! Answers that do not depend on the shards although a sum is rounded on the way.
//!
//! The mean of integers is held as a compensated sum and a count. Where the integers are many, the two
//! parts of that sum depend on the order and on the parts in which they were added. What they add up to
//! does not ([`crate::whole`]), and so the mean that comes out does not either. This module carries that
//! from one sum to the partial results and the answers of queries; all other aggregates are exact
//! ([`crate::algebra::exact`]).

use crate::algebra;
use crate::algebra::{all_rows, capped, counted, exact, fit, group_rows, in_group, size, state, sum_over};
use crate::combine;
use crate::combine::{Accum, GroupsView, KahanSum, PartialView};
use crate::dataset::RowView;
use crate::float;
use crate::float::{magnitude_of, whole_limit, Float};
use crate::json::{JsonView, Num};
use crate::query;
use crate::query::{AggView, QueryView};
use crate::table;
use crate::whole;
use crate::whole::{holds, is_whole, slip};
use vstd::arithmetic::power2::*;
use vstd::prelude::*;

verus! {

/// The integer that a number is.
pub open spec fn integer_of(f: Float) -> int {
    choose|i: int| is_whole(f, i)
}

/// The integer that a mean takes from a row, 0 where it takes none.
pub open spec fn mean_whole(column: Seq<char>) -> spec_fn(RowView) -> int {
    |row: RowView|
        match query::float_value(query::cell_value(row, column)) {
            Some(f) => integer_of(f),
            None => 0,
        }
}

/// What a mean takes from a row is an integer, if it takes anything.
pub open spec fn takes_whole(column: Seq<char>) -> spec_fn(RowView) -> bool {
    |row: RowView|
        query::float_value(query::cell_value(row, column)) matches Some(f) ==> is_whole(f, integer_of(f))
}

/// A mean takes at most `cells` integers, whose magnitudes add up to at most `most`; so many sums, each
/// of which loses at most what [`slip`] says, lose no more than a floating-point number keeps.
pub open spec fn within(rows: Seq<RowView>, column: Seq<char>, most: nat, cells: nat) -> bool {
    &&& most <= pow2(103)
    &&& fit(rows, takes_whole(column), mean_whole(column), most as int)
    &&& fit(rows, takes_whole(column), counted(column), cells as int)
    &&& 2 * cells * slip(most) <= whole_limit()
}

/// How much a mean of `cells` integers has kept of rounding, at most.
pub open spec fn kept(cells: int, most: nat) -> nat {
    if cells <= 0 {
        0
    } else {
        ((2 * cells - 1) * slip(most)) as nat
    }
}

/// A state of a mean that holds the sum of the integers in rows and their number.
pub open spec fn mean_stands(column: Seq<char>, most: nat, rows: Seq<RowView>, st: Accum) -> bool {
    let cells = sum_over(rows, size(counted(column)));
    st matches Accum::Avg { sum, count } && {
        &&& count == capped(sum_over(rows, counted(column)))
        &&& holds(sum, sum_over(rows, mean_whole(column)), kept(cells, most))
        &&& cells == 0 ==> sum == KahanSum::nothing()
    }
}

/// How the sums of an aggregate are bounded: not at all where they are exact, otherwise by the
/// magnitudes and the number of the integers that a mean takes.
pub open spec fn bounded(agg: AggView, bound: Option<(nat, nat)>, rows: Seq<RowView>) -> bool {
    match bound {
        None => exact(agg, rows),
        Some((most, cells)) => agg matches AggView::Avg(c) && within(rows, c, most, cells),
    }
}

/// A state that stands for rows: the one after them, or where sums are rounded any that holds the same
/// sum and count.
pub open spec fn stands(agg: AggView, bound: Option<(nat, nat)>, rows: Seq<RowView>, st: Accum) -> bool {
    match (agg, bound) {
        (AggView::Avg(c), Some((most, _))) => mean_stands(c, most, rows, st),
        _ => st == state(agg, rows),
    }
}

/// The sums of an aggregate over rows are exact, or those of a mean of integers that loses nothing.
pub open spec fn steady(agg: AggView, rows: Seq<RowView>) -> bool {
    exists|bound: Option<(nat, nat)>| bounded(agg, bound, rows)
}

/// The answer of a query over rows does not depend on how the sums are taken.
pub open spec fn steady_query(q: QueryView, rows: Seq<RowView>) -> bool {
    forall|i: int| 0 <= i < q.aggregates.len() ==> steady(#[trigger] q.aggregates[i], rows)
}

/// The bounds of the aggregates of a query.
pub open spec fn bounds_of(q: QueryView, rows: Seq<RowView>) -> Seq<Option<(nat, nat)>> {
    Seq::new(
        q.aggregates.len(),
        |i: int| choose|bound: Option<(nat, nat)>| bounded(q.aggregates[i], bound, rows),
    )
}

/// The sums of the aggregates of a query over rows are within these bounds.
pub open spec fn all_bounded(q: QueryView, bounds: Seq<Option<(nat, nat)>>, rows: Seq<RowView>) -> bool {
    bounds.len() == q.aggregates.len() && forall|i: int|
        0 <= i < q.aggregates.len() ==> bounded(#[trigger] q.aggregates[i], bounds[i], rows)
}

/// Groups that stand for rows: each has a state for every aggregate that stands for its rows.
pub open spec fn group_stands(
    q: QueryView,
    bounds: Seq<Option<(nat, nat)>>,
    rows: Seq<RowView>,
    groups: GroupsView,
    key: Seq<Seq<char>>,
) -> bool {
    let mine = group_rows(q, rows, key);
    &&& groups.dom().contains(key) <==> mine.len() > 0
    &&& groups.dom().contains(key) ==> groups[key].len() == q.aggregates.len() && forall|i: int|
        0 <= i < q.aggregates.len() ==> stands(
            q.aggregates[i],
            bounds[i],
            mine,
            #[trigger] groups[key][i],
        )
}

/// Groups that stand for rows.
pub open spec fn groups_stand(
    q: QueryView,
    bounds: Seq<Option<(nat, nat)>>,
    rows: Seq<RowView>,
    groups: GroupsView,
) -> bool {
    forall|key: Seq<Seq<char>>| #[trigger] group_stands(q, bounds, rows, groups, key)
}

/// The output of the groups of a query.
pub open spec fn output(q: QueryView, groups: GroupsView) -> Seq<combine::GroupView> {
    combine::finalized(PartialView { aggregates: q.aggregates, groups })
}

proof fn lemma_weaker(k: KahanSum, t: int, some: nat, more: nat)
    requires
        holds(k, t, some),
        some <= more,
    ensures
        holds(k, t, more),
{
    let (s, c) = choose|s: int, c: int| #[trigger]
        whole::parts(k, s, c) && s + c == t && magnitude_of(c) <= some;
    assert(whole::parts(k, s, c));
}

proof fn lemma_within_parts(a: Seq<RowView>, b: Seq<RowView>, column: Seq<char>, most: nat, cells: nat)
    requires
        within(a + b, column, most, cells),
    ensures
        within(a, column, most, cells),
        within(b, column, most, cells),
{
    algebra::lemma_fit_parts(a, b, takes_whole(column), mean_whole(column), most as int);
    algebra::lemma_fit_parts(a, b, takes_whole(column), counted(column), cells as int);
}

proof fn lemma_bounded_parts(agg: AggView, bound: Option<(nat, nat)>, a: Seq<RowView>, b: Seq<RowView>)
    requires
        bounded(agg, bound, a + b),
    ensures
        bounded(agg, bound, a),
        bounded(agg, bound, b),
{
    match bound {
        None => {
            algebra::lemma_exact_parts(agg, a, b);
        },
        Some((most, cells)) => {
            lemma_within_parts(a, b, agg->Avg_0, most, cells);
        },
    }
}

proof fn lemma_bounded_filtered(
    agg: AggView,
    bound: Option<(nat, nat)>,
    rows: Seq<RowView>,
    p: spec_fn(RowView) -> bool,
)
    requires
        bounded(agg, bound, rows),
    ensures
        bounded(agg, bound, rows.filter(p)),
{
    match bound {
        None => {
            algebra::lemma_exact_filtered(agg, rows, p);
        },
        Some((most, cells)) => {
            let c = agg->Avg_0;
            algebra::lemma_fit_filtered(rows, p, takes_whole(c), mean_whole(c), most as int);
            algebra::lemma_fit_filtered(rows, p, takes_whole(c), counted(c), cells as int);
        },
    }
}

/// One sum more keeps within what is allowed.
proof fn lemma_kept(x: int, y: int, most: nat, cells: nat)
    requires
        x >= 0,
        y >= 1,
        x + y <= cells,
        2 * cells * slip(most) <= whole_limit(),
    ensures
        x >= 1 ==> kept(x, most) + kept(y, most) + slip(most) == kept(x + y, most),
        kept(x, most) + slip(most) <= kept(x + 1, most),
        kept(x + y, most) <= whole_limit(),
        kept(x + 1, most) <= whole_limit(),
{
    let e = slip(most) as int;
    assert((2 * x - 1) * e + (2 * y - 1) * e + e == (2 * (x + y) - 1) * e) by (nonlinear_arith);
    assert((2 * x - 1) * e + e <= (2 * (x + 1) - 1) * e) by (nonlinear_arith)
        requires
            e >= 0,
    ;
    assert(x >= 1 ==> (2 * x - 1) * e >= 0) by (nonlinear_arith)
        requires
            e >= 0,
    ;
    assert((2 * y - 1) * e >= 0) by (nonlinear_arith)
        requires
            e >= 0,
            y >= 1,
    ;
    assert((2 * (x + y) - 1) * e <= 2 * cells * e) by (nonlinear_arith)
        requires
            e >= 0,
            x + y <= cells,
    ;
    assert((2 * (x + 1) - 1) * e <= 2 * cells * e) by (nonlinear_arith)
        requires
            e >= 0,
            x + 1 <= cells,
    ;
    assert((2 * (x + y) - 1) * e >= 0 && (2 * (x + 1) - 1) * e >= e) by (nonlinear_arith)
        requires
            e >= 0,
            x >= 0,
            y >= 1,
    ;
}

/// The state of a mean after rows stands for them.
pub(crate) proof fn lemma_mean_state(column: Seq<char>, most: nat, cells: nat, rows: Seq<RowView>)
    requires
        within(rows, column, most, cells),
    ensures
        mean_stands(column, most, rows, state(AggView::Avg(column), rows)),
        sum_over(rows, counted(column)) >= 0,
    decreases rows.len(),
{
    let f = mean_whole(column);
    let n = counted(column);
    whole::lemma_nothing();
    if rows.len() > 0 {
        let rest = rows.drop_last();
        let row = rows.last();
        assert(rows =~= rest + seq![row]);
        assert(rows =~= rest.push(row));
        lemma_within_parts(rest, seq![row], column, most, cells);
        lemma_mean_state(column, most, cells, rest);
        algebra::lemma_sum_push(rest, row, f);
        algebra::lemma_sum_push(rest, row, size(f));
        algebra::lemma_sum_push(rest, row, n);
        algebra::lemma_sum_push(rest, row, size(n));
        algebra::lemma_sum_bounds(rest, f);
        algebra::lemma_sum_bounds(rest, n);
        let before = state(AggView::Avg(column), rest)->sum;
        if let Some(v) = query::float_value(query::cell_value(row, column)) {
            assert(takes_whole(column)(rows[rows.len() - 1]));
            let t = sum_over(rest, f);
            let x = sum_over(rest, size(n));
            lemma_kept(x, 1, most, cells);
            lemma_pow2_strictly_increases(103, 104);
            whole::lemma_with(before, t, kept(x, most), v, integer_of(v), most);
            lemma_weaker(
                before.with(v),
                t + integer_of(v),
                kept(x, most) + slip(most),
                kept(x + 1, most),
            );
        }
    }
}

/// Two states of a mean that stand for rows, merged, stand for the rows of both.
pub proof fn lemma_means_merge(
    column: Seq<char>,
    most: nat,
    cells: nat,
    a: Seq<RowView>,
    b: Seq<RowView>,
    x: Accum,
    y: Accum,
)
    requires
        within(a + b, column, most, cells),
        mean_stands(column, most, a, x),
        mean_stands(column, most, b, y),
    ensures
        mean_stands(column, most, a + b, combine::merged(x, y)),
{
    let f = mean_whole(column);
    let n = counted(column);
    lemma_within_parts(a, b, column, most, cells);
    lemma_mean_state(column, most, cells, a);
    lemma_mean_state(column, most, cells, b);
    algebra::lemma_sum_concat(a, b, f);
    algebra::lemma_sum_concat(a, b, n);
    algebra::lemma_sum_concat(a, b, size(f));
    algebra::lemma_sum_concat(a, b, size(n));
    algebra::lemma_sum_bounds(a, f);
    algebra::lemma_sum_bounds(b, f);
    algebra::lemma_sum_bounds(a, n);
    algebra::lemma_sum_bounds(b, n);
    let (s, t) = (sum_over(a, f), sum_over(b, f));
    let (i, j) = (sum_over(a, size(n)), sum_over(b, size(n)));
    let (u, v) = (x->sum, y->sum);
    if j == 0 {
        lemma_nothing_holds(t, kept(j, most));
    } else if i == 0 {
        lemma_nothing_holds(s, kept(i, most));
    } else {
        lemma_kept(i, j, most, cells);
        whole::lemma_joined(u, s, kept(i, most), v, t, kept(j, most), most);
    }
}

proof fn lemma_nothing_holds(t: int, some: nat)
    requires
        holds(KahanSum::nothing(), t, some),
    ensures
        t == 0,
{
    let (s, c) = choose|s: int, c: int| #[trigger]
        whole::parts(KahanSum::nothing(), s, c) && s + c == t && magnitude_of(c) <= some;
    whole::lemma_nothing();
    lemma_one_integer(combine::zero_float(), s, 0);
    lemma_one_integer(combine::zero_float(), c, 0);
}

/// A number is at most one integer.
pub(crate) proof fn lemma_one_integer(f: Float, i: int, j: int)
    requires
        is_whole(f, i),
        is_whole(f, j),
    ensures
        i == j,
{
    let p = whole::one();
    lemma_pow2_pos(1074);
    assert(i == j) by (nonlinear_arith)
        requires
            i * p == j * p,
            p > 0,
    ;
}

/// Bounds of the rows of shards are bounds of some of them.
pub proof fn lemma_all_bounded_parts(
    q: QueryView,
    bounds: Seq<Option<(nat, nat)>>,
    a: Seq<RowView>,
    b: Seq<RowView>,
)
    requires
        all_bounded(q, bounds, a + b),
    ensures
        all_bounded(q, bounds, a),
        all_bounded(q, bounds, b),
{
    assert forall|i: int| 0 <= i < q.aggregates.len() implies bounded(
        #[trigger] q.aggregates[i],
        bounds[i],
        a,
    ) && bounded(q.aggregates[i], bounds[i], b) by {
        lemma_bounded_parts(q.aggregates[i], bounds[i], a, b);
    }
}

/// A query whose answer does not depend on how the sums are taken has bounds.
pub proof fn lemma_bounds(q: QueryView, rows: Seq<RowView>)
    requires
        steady_query(q, rows),
    ensures
        all_bounded(q, bounds_of(q, rows), rows),
{
    assert forall|i: int| 0 <= i < q.aggregates.len() implies bounded(
        #[trigger] q.aggregates[i],
        bounds_of(q, rows)[i],
        rows,
    ) by {
        assert(steady(q.aggregates[i], rows));
    }
}

/// The groups of a query over rows stand for them.
pub proof fn lemma_mapped_stands(q: QueryView, bounds: Seq<Option<(nat, nat)>>, rows: Seq<RowView>)
    requires
        all_bounded(q, bounds, rows),
    ensures
        groups_stand(q, bounds, rows, q.mapped(rows)),
{
    let groups = q.mapped(rows);
    assert forall|key: Seq<Seq<char>>| #[trigger] group_stands(q, bounds, rows, groups, key) by {
        algebra::lemma_mapped(q, rows, key);
        let p = |row: RowView| in_group(q, row, key);
        let mine = group_rows(q, rows, key);
        if groups.dom().contains(key) {
            assert forall|i: int| 0 <= i < q.aggregates.len() implies stands(
                q.aggregates[i],
                bounds[i],
                mine,
                #[trigger] groups[key][i],
            ) by {
                assert(bounded(q.aggregates[i], bounds[i], rows));
                lemma_bounded_filtered(q.aggregates[i], bounds[i], rows, p);
                if let Some((most, cells)) = bounds[i] {
                    lemma_mean_state(q.aggregates[i]->Avg_0, most, cells, mine);
                }
            }
        }
    }
}

/// Groups that stand for two runs of rows, merged, stand for both: which are merged first does not
/// matter to what they stand for.
pub proof fn lemma_merge_stands(
    q: QueryView,
    bounds: Seq<Option<(nat, nat)>>,
    a: Seq<RowView>,
    b: Seq<RowView>,
    x: GroupsView,
    y: GroupsView,
)
    requires
        all_bounded(q, bounds, a + b),
        groups_stand(q, bounds, a, x),
        groups_stand(q, bounds, b, y),
    ensures
        groups_stand(q, bounds, a + b, combine::merged_groups(x, y)),
{
    let both = combine::merged_groups(x, y);
    assert forall|key: Seq<Seq<char>>| #[trigger] group_stands(q, bounds, a + b, both, key) by {
        assert(group_stands(q, bounds, a, x, key));
        assert(group_stands(q, bounds, b, y, key));
        let p = |row: RowView| in_group(q, row, key);
        let m = group_rows(q, a, key);
        let n = group_rows(q, b, key);
        Seq::filter_distributes_over_add(a, b, p);
        assert(group_rows(q, a + b, key) == m + n);
        if m.len() == 0 {
            assert(m + n =~= n);
        }
        if n.len() == 0 {
            assert(m + n =~= m);
        }
        if both.dom().contains(key) {
            assert forall|i: int| 0 <= i < q.aggregates.len() implies stands(
                q.aggregates[i],
                bounds[i],
                m + n,
                #[trigger] both[key][i],
            ) by {
                let agg = q.aggregates[i];
                assert(bounded(agg, bounds[i], a + b));
                lemma_bounded_filtered(agg, bounds[i], a + b, p);
                if x.dom().contains(key) && y.dom().contains(key) {
                    let u = x[key][i];
                    let v = y[key][i];
                    assert(stands(agg, bounds[i], m, u) && stands(agg, bounds[i], n, v));
                    assert(both[key][i] == combine::merged(u, v));
                    match bounds[i] {
                        None => {
                            algebra::lemma_state_concat(agg, m, n);
                        },
                        Some((most, cells)) => {
                            lemma_means_merge(agg->Avg_0, most, cells, m, n, u, v);
                        },
                    }
                } else if x.dom().contains(key) {
                    assert(stands(agg, bounds[i], m, x[key][i]));
                } else {
                    assert(stands(agg, bounds[i], n, y[key][i]));
                }
            }
        }
    }
}

/// States that stand for the same rows come out as the same value.
proof fn lemma_same_value(
    agg: AggView,
    bound: Option<(nat, nat)>,
    rows: Seq<RowView>,
    x: Accum,
    y: Accum,
)
    requires
        stands(agg, bound, rows, x),
        stands(agg, bound, rows, y),
    ensures
        combine::final_value(x) == combine::final_value(y),
{
    if let (AggView::Avg(c), Some((most, _))) = (agg, bound) {
        let t = sum_over(rows, mean_whole(c));
        let some = kept(sum_over(rows, size(counted(c))), most);
        whole::lemma_total(x->sum, t, some);
        whole::lemma_total(y->sum, t, some);
    }
}

proof fn lemma_same_values(aggregates: Seq<AggView>, x: Seq<Accum>, y: Seq<Accum>, n: nat)
    requires
        forall|i: int| 0 <= i < n ==> combine::final_value(#[trigger] x[i]) == combine::final_value(y[i]),
    ensures
        combine::named_values(aggregates, x, n) == combine::named_values(aggregates, y, n),
    decreases n,
{
    if n > 0 {
        lemma_same_values(aggregates, x, y, (n - 1) as nat);
        assert(combine::final_value(x[n - 1]) == combine::final_value(y[n - 1]));
    }
}

pub(crate) proof fn lemma_groups_finite(q: QueryView, rows: Seq<RowView>)
    ensures
        q.mapped(rows).dom().finite(),
    decreases rows.len(),
{
    if rows.len() > 0 {
        lemma_groups_finite(q, rows.drop_last());
    }
}

/// Groups that stand for the same rows come out as the same answer.
pub proof fn lemma_same_answer(
    q: QueryView,
    bounds: Seq<Option<(nat, nat)>>,
    rows: Seq<RowView>,
    x: GroupsView,
    y: GroupsView,
)
    requires
        bounds.len() == q.aggregates.len(),
        groups_stand(q, bounds, rows, x),
        groups_stand(q, bounds, rows, y),
    ensures
        output(q, x) == output(q, y),
{
    assert forall|key: Seq<Seq<char>>| #[trigger] x.dom().contains(key) == y.dom().contains(key) by {
        assert(group_stands(q, bounds, rows, x, key));
        assert(group_stands(q, bounds, rows, y, key));
    }
    assert(x.dom() =~= y.dom());
    let keys = table::listing::<Vec<String>>(x.dom());
    let m = output(q, x);
    let n = output(q, y);
    assert forall|key: Seq<Seq<char>>| #[trigger] x.dom().contains(key) == q.mapped(rows).dom().contains(
        key,
    ) by {
        assert(group_stands(q, bounds, rows, x, key));
        algebra::lemma_mapped(q, rows, key);
    }
    assert(x.dom() =~= q.mapped(rows).dom());
    lemma_groups_finite(q, rows);
    table::lemma_listing::<Vec<String>>(x.dom());
    assert forall|j: int| 0 <= j < keys.len() implies m[j] == n[j] by {
        let key = keys[j];
        assert(keys.contains(key));
        assert(x.dom().contains(key));
        assert(group_stands(q, bounds, rows, x, key));
        assert(group_stands(q, bounds, rows, y, key));
        assert forall|i: int| 0 <= i < q.aggregates.len() implies combine::final_value(
            #[trigger] x[key][i],
        ) == combine::final_value(y[key][i]) by {
            let mine = group_rows(q, rows, key);
            assert(stands(q.aggregates[i], bounds[i], mine, y[key][i]));
            lemma_same_value(q.aggregates[i], bounds[i], mine, x[key][i], y[key][i]);
        }
        lemma_same_values(q.aggregates, x[key], y[key], q.aggregates.len());
    }
    assert(m =~= n);
}

proof fn lemma_bounded_permutation(
    agg: AggView,
    bound: Option<(nat, nat)>,
    a: Seq<RowView>,
    b: Seq<RowView>,
)
    requires
        bounded(agg, bound, a),
        a.to_multiset() == b.to_multiset(),
    ensures
        bounded(agg, bound, b),
{
    match bound {
        None => {
            algebra::lemma_exact_permutation(agg, a, b);
        },
        Some((most, cells)) => {
            let c = agg->Avg_0;
            algebra::lemma_fit_permutation(a, b, takes_whole(c), mean_whole(c), most as int);
            algebra::lemma_fit_permutation(a, b, takes_whole(c), counted(c), cells as int);
        },
    }
}

/// The order of rows does not matter to the answer.
pub proof fn lemma_order_of_rows(q: QueryView, a: Seq<RowView>, b: Seq<RowView>)
    requires
        steady_query(q, a),
        a.to_multiset() == b.to_multiset(),
    ensures
        steady_query(q, b),
        output(q, q.mapped(a)) == output(q, q.mapped(b)),
{
    let bounds = bounds_of(q, a);
    lemma_bounds(q, a);
    assert forall|i: int| 0 <= i < q.aggregates.len() implies bounded(
        #[trigger] q.aggregates[i],
        bounds[i],
        b,
    ) by {
        lemma_bounded_permutation(q.aggregates[i], bounds[i], a, b);
    }
    assert(all_bounded(q, bounds, b));
    lemma_mapped_stands(q, bounds, a);
    lemma_mapped_stands(q, bounds, b);
    let groups = q.mapped(b);
    assert forall|key: Seq<Seq<char>>| #[trigger] group_stands(q, bounds, a, groups, key) by {
        assert(group_stands(q, bounds, b, groups, key));
        let p = |row: RowView| in_group(q, row, key);
        let m = group_rows(q, a, key);
        let n = group_rows(q, b, key);
        algebra::lemma_filtered_multiset(a, p);
        algebra::lemma_filtered_multiset(b, p);
        m.to_multiset_ensures();
        n.to_multiset_ensures();
        assert(m.to_multiset() == n.to_multiset());
        assert(m.len() == n.len());
        if groups.dom().contains(key) {
            assert forall|i: int| 0 <= i < q.aggregates.len() implies stands(
                q.aggregates[i],
                bounds[i],
                m,
                #[trigger] groups[key][i],
            ) by {
                let agg = q.aggregates[i];
                assert(stands(agg, bounds[i], n, groups[key][i]));
                assert(bounded(agg, bounds[i], a) && bounded(agg, bounds[i], b));
                lemma_bounded_filtered(agg, bounds[i], a, p);
                lemma_bounded_filtered(agg, bounds[i], b, p);
                match bounds[i] {
                    None => {
                        algebra::lemma_state_permutation(agg, m, n);
                    },
                    Some(_) => {
                        let c = agg->Avg_0;
                        algebra::lemma_sum_permutation(m, n, mean_whole(c));
                        algebra::lemma_sum_permutation(m, n, counted(c));
                        algebra::lemma_sum_permutation(m, n, size(counted(c)));
                    },
                }
            }
        }
    }
    lemma_same_answer(q, bounds, a, q.mapped(a), groups);
}

/// Sums that are exact do not depend on how they are taken.
pub proof fn lemma_exact_is_steady(q: QueryView, rows: Seq<RowView>)
    requires
        algebra::exact_query(q, rows),
    ensures
        steady_query(q, rows),
{
    assert forall|i: int| 0 <= i < q.aggregates.len() implies steady(#[trigger] q.aggregates[i], rows) by {
        assert(bounded(q.aggregates[i], None, rows));
    }
}

/// Rows that the query leaves out do not change what groups stand for.
pub proof fn lemma_stands_without(
    q: QueryView,
    bounds: Seq<Option<(nat, nat)>>,
    a: Seq<RowView>,
    b: Seq<RowView>,
    groups: GroupsView,
)
    requires
        groups_stand(q, bounds, a, groups),
        forall|i: int| 0 <= i < b.len() ==> !query::meets(q.predicate, #[trigger] b[i]),
    ensures
        groups_stand(q, bounds, a + b, groups),
{
    assert forall|key: Seq<Seq<char>>| #[trigger] group_stands(q, bounds, a + b, groups, key) by {
        assert(group_stands(q, bounds, a, groups, key));
        let p = |row: RowView| in_group(q, row, key);
        Seq::filter_distributes_over_add(a, b, p);
        lemma_none_left(b, p);
        assert(group_rows(q, a + b, key) =~= group_rows(q, a, key));
    }
}

proof fn lemma_none_left(rows: Seq<RowView>, p: spec_fn(RowView) -> bool)
    requires
        forall|i: int| 0 <= i < rows.len() ==> !p(#[trigger] rows[i]),
    ensures
        rows.filter(p).len() == 0,
    decreases rows.len(),
{
    reveal(Seq::filter);
    if rows.len() > 0 {
        let rest = rows.drop_last();
        assert forall|i: int| 0 <= i < rest.len() implies !p(#[trigger] rest[i]) by {
            assert(rest[i] == rows[i]);
        }
        lemma_none_left(rest, p);
        assert(!p(rows[rows.len() - 1]));
    }
}

/// Shards mapped one by one and reduced have the answer of all their rows at once.
pub proof fn lemma_shards_answer(q: QueryView, shards: Seq<Seq<RowView>>)
    requires
        steady_query(q, all_rows(shards)),
    ensures
        output(q, combine::reduced(algebra::map_all(q, shards))) == output(
            q,
            q.mapped(all_rows(shards)),
        ),
{
    let rows = all_rows(shards);
    let bounds = bounds_of(q, rows);
    lemma_bounds(q, rows);
    lemma_shards_stand(q, bounds, shards);
    lemma_mapped_stands(q, bounds, rows);
    lemma_same_answer(
        q,
        bounds,
        rows,
        combine::reduced(algebra::map_all(q, shards)),
        q.mapped(rows),
    );
}

proof fn lemma_shards_stand(q: QueryView, bounds: Seq<Option<(nat, nat)>>, shards: Seq<Seq<RowView>>)
    requires
        all_bounded(q, bounds, all_rows(shards)),
    ensures
        groups_stand(q, bounds, all_rows(shards), combine::reduced(algebra::map_all(q, shards))),
    decreases shards.len(),
{
    if shards.len() == 0 {
        lemma_nothing_stands(q, bounds);
        assert(algebra::map_all(q, shards) =~= Seq::<PartialView>::empty());
    } else {
        let rest = shards.drop_last();
        let last = shards.last();
        lemma_all_bounded_parts(q, bounds, all_rows(rest), last);
        lemma_shards_stand(q, bounds, rest);
        lemma_mapped_stands(q, bounds, last);
        let parts = algebra::map_all(q, shards);
        assert(parts.drop_last() =~= algebra::map_all(q, rest));
        lemma_merge_stands(
            q,
            bounds,
            all_rows(rest),
            last,
            combine::reduced(parts.drop_last()),
            q.mapped(last),
        );
    }
}

/// The partial results of three runs of rows have the answer of all rows at once, whichever two are
/// merged first.
pub proof fn lemma_merge_answers(q: QueryView, a: Seq<RowView>, b: Seq<RowView>, c: Seq<RowView>)
    requires
        steady_query(q, a + b + c),
    ensures
        output(
            q,
            combine::merged_groups(combine::merged_groups(q.mapped(a), q.mapped(b)), q.mapped(c)),
        ) == output(q, q.mapped(a + b + c)),
        output(
            q,
            combine::merged_groups(q.mapped(a), combine::merged_groups(q.mapped(b), q.mapped(c))),
        ) == output(q, q.mapped(a + b + c)),
{
    let all = a + b + c;
    let bounds = bounds_of(q, all);
    let (x, y, z) = (q.mapped(a), q.mapped(b), q.mapped(c));
    lemma_bounds(q, all);
    assert(a + (b + c) =~= all);
    lemma_all_bounded_parts(q, bounds, a + b, c);
    lemma_all_bounded_parts(q, bounds, a, b + c);
    lemma_mapped_stands(q, bounds, a);
    lemma_all_bounded_parts(q, bounds, a, b);
    lemma_mapped_stands(q, bounds, b);
    lemma_mapped_stands(q, bounds, c);
    lemma_mapped_stands(q, bounds, all);
    lemma_merge_stands(q, bounds, a, b, x, y);
    lemma_merge_stands(q, bounds, a + b, c, combine::merged_groups(x, y), z);
    lemma_merge_stands(q, bounds, b, c, y, z);
    lemma_merge_stands(q, bounds, a, b + c, x, combine::merged_groups(y, z));
    lemma_same_answer(
        q,
        bounds,
        all,
        combine::merged_groups(combine::merged_groups(x, y), z),
        q.mapped(all),
    );
    lemma_same_answer(
        q,
        bounds,
        all,
        combine::merged_groups(x, combine::merged_groups(y, z)),
        q.mapped(all),
    );
}

/// No groups stand for no rows.
pub proof fn lemma_nothing_stands(q: QueryView, bounds: Seq<Option<(nat, nat)>>)
    ensures
        groups_stand(q, bounds, Seq::empty(), Map::empty()),
{
    assert forall|key: Seq<Seq<char>>| #[trigger] group_stands(
        q,
        bounds,
        Seq::empty(),
        Map::empty(),
        key,
    ) by {
        lemma_none_left(Seq::empty(), |row: RowView| in_group(q, row, key));
    }
}

/// The value is an integer of at most this magnitude, or stands for no number.
pub open spec fn small(v: JsonView, most: nat) -> bool {
    match v {
        JsonView::Number(Num::Int(i)) => magnitude_of(i as int) <= most,
        JsonView::Number(_) => false,
        _ => query::float_value(v) is None && query::number_value(v) is None,
    }
}

proof fn lemma_small_sum(rows: Seq<RowView>, f: spec_fn(RowView) -> int, most: nat)
    requires
        forall|i: int| 0 <= i < rows.len() ==> magnitude_of(f(#[trigger] rows[i])) <= most,
    ensures
        sum_over(rows, size(f)) <= rows.len() * most,
    decreases rows.len(),
{
    if rows.len() > 0 {
        let rest = rows.drop_last();
        assert forall|i: int| 0 <= i < rest.len() implies magnitude_of(f(#[trigger] rest[i])) <= most by {
            assert(rest[i] == rows[i]);
        }
        lemma_small_sum(rest, f, most);
        assert(rows =~= rest.push(rows.last()));
        algebra::lemma_sum_push(rest, rows.last(), size(f));
        assert(magnitude_of(f(rows[rows.len() - 1])) <= most);
        assert(rows.len() * most == rest.len() * most + most) by (nonlinear_arith)
            requires
                rows.len() == rest.len() + 1,
        ;
    }
}

/// Integers that are numbers do not depend on how their sums are taken, unless they are so many and so
/// large that what rounding takes of the sums of a mean is too large to be kept.
pub proof fn lemma_integers_are_steady(q: QueryView, rows: Seq<RowView>, most: nat)
    requires
        forall|i: int, c: Seq<char>|
            0 <= i < rows.len() ==> small(#[trigger] query::cell_value(rows[i], c), most),
        most <= whole_limit(),
        rows.len() * most <= pow2(103),
        2 * rows.len() * slip(rows.len() * most) <= whole_limit(),
    ensures
        steady_query(q, rows),
{
    assert forall|n: int| 0 <= n < q.aggregates.len() implies steady(#[trigger] q.aggregates[n], rows) by {
        let agg = q.aggregates[n];
        match agg {
            AggView::Sum(c) => {
                assert forall|i: int| 0 <= i < rows.len() implies magnitude_of(
                    algebra::whole(c)(#[trigger] rows[i]),
                ) <= most && algebra::no_fraction(c)(rows[i]) by {
                    assert(small(query::cell_value(rows[i], c), most));
                }
                lemma_small_sum(rows, algebra::whole(c), most);
                lemma2_to64_rest();
                lemma_pow2_adds(63, 40);
                lemma2_to64();
                assert(algebra::integers(rows, c));
                assert(bounded(agg, None, rows));
            },
            AggView::Avg(c) => {
                assert forall|i: int| 0 <= i < rows.len() implies magnitude_of(
                    mean_whole(c)(#[trigger] rows[i]),
                ) <= most && takes_whole(c)(rows[i]) && magnitude_of(counted(c)(rows[i])) <= 1 by {
                    let v = query::cell_value(rows[i], c);
                    assert(small(v, most));
                    if let JsonView::Number(Num::Int(x)) = v {
                        let f = query::num_float(Num::Int(x));
                        float::lemma_grid(x as int, 1074);
                        assert(is_whole(f, x as int));
                        lemma_one_integer(f, x as int, integer_of(f));
                    }
                }
                lemma_small_sum(rows, mean_whole(c), most);
                lemma_small_sum(rows, counted(c), 1);
                let total = rows.len() * most;
                assert(within(rows, c, total, rows.len()));
                assert(bounded(agg, Some((total, rows.len())), rows));
            },
            _ => {
                assert(bounded(agg, None, rows));
            },
        }
    }
}

/// Integers of up to 31 bits are within the bounds for up to 2 to the power 36 rows.
pub proof fn lemma_many_integers_are_steady(q: QueryView, rows: Seq<RowView>)
    requires
        forall|i: int, c: Seq<char>|
            0 <= i < rows.len() ==> small(#[trigger] query::cell_value(rows[i], c), 0x8000_0000),
        rows.len() <= 0x10_0000_0000,
    ensures
        steady_query(q, rows),
{
    let n = rows.len();
    let total = n * 0x8000_0000;
    lemma2_to64();
    lemma2_to64_rest();
    lemma_pow2_adds(63, 40);
    assert(total <= 0x10_0000_0000 * 0x8000_0000);
    assert(slip(total) <= 0x4001);
    assert(2 * n * slip(total) <= whole_limit()) by (nonlinear_arith)
        requires
            n <= 0x10_0000_0000,
            slip(total) <= 0x4001,
            whole_limit() == 0x20_0000_0000_0000,
    ;
    lemma_integers_are_steady(q, rows, 0x8000_0000);
}

} // verus!
