//! What the answer of a query means: which rows form a group, what stands in its columns, and which rows
//! and columns a query for rows gives.

use crate::algebra;
use crate::algebra::state;
use crate::combine;
use crate::combine::{Accum, GroupView, PartialView};
use crate::dataset::RowView;
use crate::float;
use crate::float::Float;
use crate::json::{CellView, JsonView, Num};
use crate::means;
use crate::query;
use crate::query::{
    meets, Agg, AggView, Predicate, PredicateView, Query, QueryView,
};
use crate::table;
use crate::table::Key;
use vstd::prelude::*;

verus! {

/// The text by which a cell is grouped: what a string says, and what is written for anything else.
pub open spec fn said(c: CellView) -> Seq<char> {
    if c.value is String {
        c.value->String_0
    } else {
        c.text
    }
}

/// The text by which a row is grouped in a column; nothing where it has no such column.
pub open spec fn said_in(row: RowView, column: Seq<char>) -> Seq<char> {
    if row.dom().contains(column) {
        said(row[column])
    } else {
        Seq::empty()
    }
}

/// A row meets the condition of a query and has these texts in the columns to group by.
pub open spec fn member(q: QueryView, row: RowView, key: Seq<Seq<char>>) -> bool {
    &&& meets(q.predicate, row)
    &&& key.len() == q.group_by.len()
    &&& forall|j: int| 0 <= j < key.len() ==> #[trigger] key[j] == said_in(row, q.group_by[j])
}

/// The rows of a group, in their order.
pub open spec fn members(q: QueryView, rows: Seq<RowView>, key: Seq<Seq<char>>) -> Seq<RowView> {
    rows.filter(|row: RowView| member(q, row, key))
}

/// The groups of rows are those of their texts in the columns to group by, and each has for every
/// aggregate its state after the rows with these texts and no others.
pub proof fn lemma_groups(q: QueryView, rows: Seq<RowView>, key: Seq<Seq<char>>)
    ensures
        q.mapped(rows).dom().contains(key) <==> members(q, rows, key).len() > 0,
        q.mapped(rows).dom().contains(key) ==> q.mapped(rows)[key].len() == q.aggregates.len(),
        forall|n: int|
            0 <= n < q.aggregates.len() && q.mapped(rows).dom().contains(key)
                ==> #[trigger] q.mapped(rows)[key][n] == state(
                q.aggregates[n],
                members(q, rows, key),
            ),
{
    algebra::lemma_mapped(q, rows, key);
    let p = |row: RowView| member(q, row, key);
    let r = |row: RowView| algebra::in_group(q, row, key);
    assert forall|row: RowView| #[trigger] p(row) == r(row) by {
        if member(q, row, key) {
            assert(query::key_of(q.group_by, row) =~= key) by {
                assert forall|j: int| 0 <= j < key.len() implies query::key_of(q.group_by, row)[j]
                    == key[j] by {
                    assert(key[j] == said_in(row, q.group_by[j]));
                }
            }
        }
    }
    assert(p =~= r);
}

/// Two rows that meet the condition belong to one group exactly where they have the same text in every
/// column to group by.
pub proof fn lemma_same_group(q: QueryView, rows: Seq<RowView>, i: int, j: int)
    requires
        0 <= i < rows.len(),
        0 <= j < rows.len(),
        meets(q.predicate, rows[i]),
        meets(q.predicate, rows[j]),
    ensures
        (exists|key: Seq<Seq<char>>|
            #![trigger q.mapped(rows).dom().contains(key)]
            q.mapped(rows).dom().contains(key) && members(q, rows, key).contains(rows[i]) && members(
                q,
                rows,
                key,
            ).contains(rows[j])) <==> forall|c: int|
            0 <= c < q.group_by.len() ==> said_in(rows[i], #[trigger] q.group_by[c]) == said_in(
                rows[j],
                q.group_by[c],
            ),
{
    let together = forall|c: int|
        0 <= c < q.group_by.len() ==> said_in(rows[i], #[trigger] q.group_by[c]) == said_in(
            rows[j],
            q.group_by[c],
        );
    let key = Seq::new(q.group_by.len(), |c: int| said_in(rows[i], q.group_by[c]));
    if together {
        assert(member(q, rows[i], key) && member(q, rows[j], key));
        lemma_groups(q, rows, key);
        lemma_filtered(rows, |row: RowView| member(q, row, key), i);
        lemma_filtered(rows, |row: RowView| member(q, row, key), j);
        assert(q.mapped(rows).dom().contains(key));
    }
    if exists|key: Seq<Seq<char>>|
        #![trigger q.mapped(rows).dom().contains(key)]
        q.mapped(rows).dom().contains(key) && members(q, rows, key).contains(rows[i]) && members(
            q,
            rows,
            key,
        ).contains(rows[j]) {
        let k = choose|key: Seq<Seq<char>>|
            #![trigger q.mapped(rows).dom().contains(key)]
            q.mapped(rows).dom().contains(key) && members(q, rows, key).contains(rows[i]) && members(
                q,
                rows,
                key,
            ).contains(rows[j]);
        let p = |row: RowView| member(q, row, k);
        rows.lemma_filter_contains_rev(p, rows[i]);
        rows.lemma_filter_contains_rev(p, rows[j]);
        assert forall|c: int| 0 <= c < q.group_by.len() implies said_in(
            rows[i],
            #[trigger] q.group_by[c],
        ) == said_in(rows[j], q.group_by[c]) by {
            assert(k[c] == said_in(rows[i], q.group_by[c]));
        }
    }
}

proof fn lemma_filtered(rows: Seq<RowView>, p: spec_fn(RowView) -> bool, i: int)
    requires
        0 <= i < rows.len(),
        p(rows[i]),
    ensures
        rows.filter(p).contains(rows[i]),
        rows.filter(p).len() > 0,
{
    rows.lemma_filter_contains(p, i);
    assert(rows.filter(p).contains(rows[i]));
}

/// The answer of a query before it is ordered: the groups in the order of their keys, each once, with
/// the output of every aggregate over the rows of the group under its name.
pub proof fn lemma_answer(q: QueryView, rows: Seq<RowView>)
    ensures
        ({
            let out = combine::finalized(
                PartialView { aggregates: q.aggregates, groups: q.mapped(rows) },
            );
            &&& forall|i: int, j: int|
                0 <= i < j < out.len() ==> Vec::<String>::earlier(
                    (#[trigger] out[i]).key,
                    (#[trigger] out[j]).key,
                )
            &&& forall|i: int|
                0 <= i < out.len() ==> members(q, rows, (#[trigger] out[i]).key).len() > 0
            &&& forall|r: int|
                0 <= r < rows.len() && meets(q.predicate, #[trigger] rows[r]) ==> has_group(
                    q,
                    out,
                    rows[r],
                )
            &&& forall|i: int, n: int|
                0 <= i < out.len() && 0 <= n < q.aggregates.len() && last_of_name(q.aggregates, n)
                    ==> has_value(
                    #[trigger] out[i],
                    #[trigger] q.aggregates[n],
                    members(q, rows, out[i].key),
                )
        }),
{
    let groups = q.mapped(rows);
    let keys = table::listing::<Vec<String>>(groups.dom());
    let out = combine::finalized(PartialView { aggregates: q.aggregates, groups });
    means::lemma_groups_finite(q, rows);
    table::lemma_listing::<Vec<String>>(groups.dom());
    assert forall|i: int| 0 <= i < out.len() implies members(q, rows, (#[trigger] out[i]).key).len() > 0 by {
        assert(keys.contains(keys[i]));
        lemma_groups(q, rows, keys[i]);
    }
    assert forall|r: int| 0 <= r < rows.len() && meets(q.predicate, #[trigger] rows[r]) implies has_group(
        q,
        out,
        rows[r],
    ) by {
        let key = Seq::new(q.group_by.len(), |c: int| said_in(rows[r], q.group_by[c]));
        assert(member(q, rows[r], key));
        lemma_filtered(rows, |row: RowView| member(q, row, key), r);
        lemma_groups(q, rows, key);
        assert(keys.contains(key));
        let i = keys.index_of(key);
        assert(out[i].key == key);
    }
    assert forall|i: int, n: int|
        0 <= i < out.len() && 0 <= n < q.aggregates.len() && last_of_name(q.aggregates, n) implies has_value(
        #[trigger] out[i],
        #[trigger] q.aggregates[n],
        members(q, rows, out[i].key),
    ) by {
        assert(keys.contains(keys[i]));
        lemma_groups(q, rows, keys[i]);
        lemma_named(q.aggregates, groups[keys[i]], q.aggregates.len(), n);
        assert(groups[keys[i]][n] == state(q.aggregates[n], members(q, rows, keys[i])));
    }
}

/// There is a group with the texts of the row.
pub open spec fn has_group(q: QueryView, out: Seq<GroupView>, row: RowView) -> bool {
    exists|i: int| 0 <= i < out.len() && member(q, row, (#[trigger] out[i]).key)
}

/// No later aggregate has the name of this one.
pub open spec fn last_of_name(aggregates: Seq<AggView>, n: int) -> bool {
    forall|m: int| n < m < aggregates.len() ==> (#[trigger] aggregates[m]).column() != aggregates[n].column()
}

/// The group has the output of an aggregate over these rows under its name.
pub open spec fn has_value(g: GroupView, agg: AggView, rows: Seq<RowView>) -> bool {
    g.values.dom().contains(agg.column()) && g.values[agg.column()] == output(agg, rows)
}

/// What an aggregate of rows comes out as.
pub open spec fn output(agg: AggView, rows: Seq<RowView>) -> JsonView {
    combine::final_value(state(agg, rows))
}

proof fn lemma_named(aggregates: Seq<AggView>, states: Seq<Accum>, n: nat, m: int)
    requires
        0 <= m < n <= aggregates.len(),
        forall|k: int| m < k < n ==> (#[trigger] aggregates[k]).column() != aggregates[m].column(),
    ensures
        combine::named_values(aggregates, states, n).dom().contains(aggregates[m].column()),
        combine::named_values(aggregates, states, n)[aggregates[m].column()] == combine::final_value(
            states[m],
        ),
    decreases n,
{
    if m < n - 1 {
        assert(aggregates[n - 1].column() != aggregates[m].column());
        lemma_named(aggregates, states, (n - 1) as nat, m);
    }
}

/// `COUNT` is the number of rows.
pub proof fn lemma_count(rows: Seq<RowView>)
    requires
        rows.len() <= u64::MAX,
    ensures
        output(AggView::Count, rows) == JsonView::Number(Num::Int(rows.len() as i128)),
{
    lemma_count_state(rows);
}

proof fn lemma_count_state(rows: Seq<RowView>)
    ensures
        state(AggView::Count, rows) == Accum::Count(
            if rows.len() > u64::MAX {
                u64::MAX
            } else {
                rows.len() as u64
            },
        ),
    decreases rows.len(),
{
    if rows.len() > 0 {
        lemma_count_state(rows.drop_last());
    }
}

/// The number in a column of a row.
pub open spec fn number_in(row: RowView, column: Seq<char>) -> Option<Float> {
    if row.dom().contains(column) {
        query::float_value(row[column].value)
    } else {
        None
    }
}

/// The row has something in the column that is a number.
pub open spec fn counts(row: RowView, column: Seq<char>) -> bool {
    number_in(row, column) is Some && !number_in(row, column)->0.is_nan_spec()
}

/// `x` is the number in the column of one of the rows.
pub open spec fn is_in(x: Float, rows: Seq<RowView>, column: Seq<char>) -> bool {
    exists|i: int| 0 <= i < rows.len() && number_in(#[trigger] rows[i], column) == Some(x)
}

/// The lesser and the greater of two numbers.
pub(crate) proof fn lemma_of_two(x: Float, y: Float)
    ensures
        x.is_nan_spec() && !y.is_nan_spec() ==> float::min_of(x, y) == y && float::max_of(x, y) == y,
        !x.is_nan_spec() && y.is_nan_spec() ==> float::min_of(x, y) == x && float::max_of(x, y) == x,
        !x.is_nan_spec() && !y.is_nan_spec() ==> {
            let (m, n) = (float::min_of(x, y), float::max_of(x, y));
            &&& m == x || m == y
            &&& n == x || n == y
            &&& m.units() <= x.units() && m.units() <= y.units()
            &&& n.units() >= x.units() && n.units() >= y.units()
        },
{
}

/// `MIN` is one of the numbers in the column, and none of them is less.
pub proof fn lemma_minimum(rows: Seq<RowView>, column: Seq<char>, i: int)
    requires
        0 <= i < rows.len(),
        counts(rows[i], column),
    ensures
        state(AggView::Min(column), rows) matches Accum::Min(Some(x)) && is_in(x, rows, column)
            && !x.is_nan_spec() && x.units() <= number_in(rows[i], column)->0.units(),
    decreases rows.len(),
{
    let rest = rows.drop_last();
    let last = rows.last();
    let n = number_in(last, column);
    lemma_extreme_kinds(rest, column);
    assert(rows[rows.len() - 1] == last);
    let before = state(AggView::Min(column), rest)->Min_0;
    let now = state(AggView::Min(column), rows)->Min_0;
    assert(now == combine::min_known(before, n));
    if exists|j: int| 0 <= j < rest.len() && counts(#[trigger] rest[j], column) {
        let j = if i < rest.len() {
            i
        } else {
            choose|j: int| 0 <= j < rest.len() && counts(#[trigger] rest[j], column)
        };
        lemma_minimum(rest, column, j);
        let x = before->0;
        let k = choose|k: int| 0 <= k < rest.len() && number_in(#[trigger] rest[k], column) == Some(x);
        assert(number_in(rows[k], column) == Some(x));
        if let Some(y) = n {
            lemma_of_two(x, y);
        }
    } else {
        lemma_only_last(rows, column, i);
        lemma_no_number(rest, column);
        if let Some(x) = before {
            lemma_of_two(x, n->0);
        }
    }
}

/// `MAX` is one of the numbers in the column, and none of them is greater.
pub proof fn lemma_maximum(rows: Seq<RowView>, column: Seq<char>, i: int)
    requires
        0 <= i < rows.len(),
        counts(rows[i], column),
    ensures
        state(AggView::Max(column), rows) matches Accum::Max(Some(x)) && is_in(x, rows, column)
            && !x.is_nan_spec() && x.units() >= number_in(rows[i], column)->0.units(),
    decreases rows.len(),
{
    let rest = rows.drop_last();
    let last = rows.last();
    let n = number_in(last, column);
    lemma_extreme_kinds(rest, column);
    assert(rows[rows.len() - 1] == last);
    let before = state(AggView::Max(column), rest)->Max_0;
    let now = state(AggView::Max(column), rows)->Max_0;
    assert(now == combine::max_known(before, n));
    if exists|j: int| 0 <= j < rest.len() && counts(#[trigger] rest[j], column) {
        let j = if i < rest.len() {
            i
        } else {
            choose|j: int| 0 <= j < rest.len() && counts(#[trigger] rest[j], column)
        };
        lemma_maximum(rest, column, j);
        let x = before->0;
        let k = choose|k: int| 0 <= k < rest.len() && number_in(#[trigger] rest[k], column) == Some(x);
        assert(number_in(rows[k], column) == Some(x));
        if let Some(y) = n {
            lemma_of_two(x, y);
        }
    } else {
        lemma_only_last(rows, column, i);
        lemma_no_number(rest, column);
        if let Some(x) = before {
            lemma_of_two(x, n->0);
        }
    }
}

proof fn lemma_only_last(rows: Seq<RowView>, column: Seq<char>, i: int)
    requires
        0 <= i < rows.len(),
        counts(rows[i], column),
        forall|j: int| 0 <= j < rows.len() - 1 ==> !counts(#[trigger] rows.drop_last()[j], column),
    ensures
        i == rows.len() - 1,
{
    if i < rows.len() - 1 {
        assert(rows.drop_last()[i] == rows[i]);
    }
}

/// What `MIN` and `MAX` come out as: the number itself where JSON can write it.
pub proof fn lemma_extremes_come_out(rows: Seq<RowView>, column: Seq<char>, x: Float)
    requires
        x.mag() < float::INFINITE,
    ensures
        state(AggView::Min(column), rows) == Accum::Min(Some(x)) ==> output(AggView::Min(column), rows)
            == JsonView::Number(Num::Float(x)),
        state(AggView::Max(column), rows) == Accum::Max(Some(x)) ==> output(AggView::Max(column), rows)
            == JsonView::Number(Num::Float(x)),
{
}

proof fn lemma_extreme_kinds(rows: Seq<RowView>, column: Seq<char>)
    ensures
        state(AggView::Min(column), rows) is Min,
        state(AggView::Max(column), rows) is Max,
    decreases rows.len(),
{
    if rows.len() > 0 {
        lemma_extreme_kinds(rows.drop_last(), column);
    }
}

proof fn lemma_no_number(rows: Seq<RowView>, column: Seq<char>)
    requires
        forall|j: int| 0 <= j < rows.len() ==> !counts(#[trigger] rows[j], column),
    ensures
        state(AggView::Min(column), rows) matches Accum::Min(m) && (m matches Some(x)
            ==> x.is_nan_spec()),
        state(AggView::Max(column), rows) matches Accum::Max(m) && (m matches Some(x)
            ==> x.is_nan_spec()),
    decreases rows.len(),
{
    if rows.len() > 0 {
        let rest = rows.drop_last();
        assert forall|j: int| 0 <= j < rest.len() implies !counts(#[trigger] rest[j], column) by {
            assert(rest[j] == rows[j]);
        }
        lemma_no_number(rest, column);
        assert(!counts(rows[rows.len() - 1], column));
    }
}

/// Without a number in the column `MIN`, `MAX` and `AVG` are null, and `SUM` is 0.
pub proof fn lemma_nothing_to_add(rows: Seq<RowView>, column: Seq<char>)
    requires
        forall|j: int|
            0 <= j < rows.len() ==> number_in(#[trigger] rows[j], column) is None && (
            rows[j].dom().contains(column) ==> query::number_value(rows[j][column].value) is None),
    ensures
        output(AggView::Min(column), rows) is Null,
        output(AggView::Max(column), rows) is Null,
        output(AggView::Avg(column), rows) is Null,
        output(AggView::Sum(column), rows) == JsonView::Number(Num::Int(0)),
{
    lemma_untouched(rows, column);
}

proof fn lemma_untouched(rows: Seq<RowView>, column: Seq<char>)
    requires
        forall|j: int|
            0 <= j < rows.len() ==> number_in(#[trigger] rows[j], column) is None && (
            rows[j].dom().contains(column) ==> query::number_value(rows[j][column].value) is None),
    ensures
        state(AggView::Min(column), rows) == Accum::Min(None),
        state(AggView::Max(column), rows) == Accum::Max(None),
        state(AggView::Avg(column), rows) == AggView::Avg(column).start(),
        state(AggView::Sum(column), rows) == Accum::IntSum(0),
    decreases rows.len(),
{
    if rows.len() > 0 {
        let rest = rows.drop_last();
        assert forall|j: int| 0 <= j < rest.len() implies number_in(#[trigger] rest[j], column) is None
            && (rest[j].dom().contains(column) ==> query::number_value(
            rest[j][column].value,
        ) is None) by {
            assert(rest[j] == rows[j]);
        }
        lemma_untouched(rest, column);
        assert(number_in(rows[rows.len() - 1], column) is None);
    }
}

/// The sum of the integers in a column.
pub open spec fn total(rows: Seq<RowView>, column: Seq<char>) -> int
    decreases rows.len(),
{
    if rows.len() == 0 {
        0
    } else {
        total(rows.drop_last(), column) + (if integer_in(rows.last(), column) is Some {
            integer_in(rows.last(), column)->0
        } else {
            0
        })
    }
}

/// The magnitudes of the integers in a column, added up.
pub open spec fn magnitudes(rows: Seq<RowView>, column: Seq<char>) -> int
    decreases rows.len(),
{
    if rows.len() == 0 {
        0
    } else {
        magnitudes(rows.drop_last(), column) + (if integer_in(rows.last(), column) is Some {
            float::magnitude_of(integer_in(rows.last(), column)->0) as int
        } else {
            0
        })
    }
}

/// How many integers are in a column.
pub open spec fn how_many(rows: Seq<RowView>, column: Seq<char>) -> nat
    decreases rows.len(),
{
    if rows.len() == 0 {
        0
    } else {
        how_many(rows.drop_last(), column) + (if integer_in(rows.last(), column) is Some {
            1nat
        } else {
            0nat
        })
    }
}

/// The integer in a column of a row.
pub open spec fn integer_in(row: RowView, column: Seq<char>) -> Option<int> {
    if row.dom().contains(column) && row[column].value is Number && row[column].value->Number_0 is Int {
        Some(row[column].value->Number_0->Int_0 as int)
    } else {
        None
    }
}

/// The column of a row holds an integer, or nothing that is a number.
pub open spec fn whole_or_none(row: RowView, column: Seq<char>) -> bool {
    row.dom().contains(column) ==> (match row[column].value {
        JsonView::Number(n) => n is Int,
        v => query::number_value(v) is None && query::float_value(v) is None,
    })
}

/// `SUM` over integers is their sum, to the last digit.
pub proof fn lemma_sum(rows: Seq<RowView>, column: Seq<char>)
    requires
        forall|j: int| 0 <= j < rows.len() ==> whole_or_none(#[trigger] rows[j], column),
        magnitudes(rows, column) <= i128::MAX,
    ensures
        output(AggView::Sum(column), rows) == JsonView::Number(Num::Int(total(rows, column) as i128)),
        i128::MIN <= total(rows, column) <= i128::MAX,
{
    lemma_sum_state(rows, column);
}

proof fn lemma_sum_state(rows: Seq<RowView>, column: Seq<char>)
    requires
        forall|j: int| 0 <= j < rows.len() ==> whole_or_none(#[trigger] rows[j], column),
        magnitudes(rows, column) <= i128::MAX,
    ensures
        state(AggView::Sum(column), rows) == Accum::IntSum(total(rows, column) as i128),
        float::magnitude_of(total(rows, column)) <= magnitudes(rows, column),
    decreases rows.len(),
{
    if rows.len() > 0 {
        let rest = rows.drop_last();
        assert forall|j: int| 0 <= j < rest.len() implies whole_or_none(#[trigger] rest[j], column) by {
            assert(rest[j] == rows[j]);
        }
        assert(whole_or_none(rows[rows.len() - 1], column));
        lemma_sum_state(rest, column);
    }
}

/// `AVG` over integers that are numbers is their sum divided by how many there are, both exact and only
/// the quotient rounded beyond what a floating-point number holds of either.
pub proof fn lemma_mean(rows: Seq<RowView>, column: Seq<char>)
    requires
        forall|j: int| 0 <= j < rows.len() ==> whole_or_none(#[trigger] rows[j], column) && (integer_in(
            rows[j],
            column,
        ) matches Some(i) ==> float::magnitude_of(i) <= float::whole_limit()),
        magnitudes(rows, column) <= vstd::arithmetic::power2::pow2(103),
        2 * how_many(rows, column) * crate::whole::slip(magnitudes(rows, column) as nat)
            <= float::whole_limit(),
        0 < how_many(rows, column) <= u64::MAX,
    ensures
        output(AggView::Avg(column), rows) == combine::float_json(
            float::quotient_of(
                float::nearest_int(total(rows, column)),
                float::nearest_int(how_many(rows, column) as int),
            ),
        ),
{
    lemma_mean_sums(rows, column);
    let most = magnitudes(rows, column) as nat;
    let cells = how_many(rows, column);
    lemma_magnitudes(rows, column);
    means::lemma_mean_state(column, most, cells, rows);
    let st = state(AggView::Avg(column), rows);
    crate::whole::lemma_total(
        st->sum,
        total(rows, column),
        means::kept(algebra::sum_over(rows, algebra::size(algebra::counted(column))), most),
    );
}

proof fn lemma_magnitudes(rows: Seq<RowView>, column: Seq<char>)
    ensures
        magnitudes(rows, column) >= 0,
    decreases rows.len(),
{
    if rows.len() > 0 {
        lemma_magnitudes(rows.drop_last(), column);
    }
}

proof fn lemma_mean_sums(rows: Seq<RowView>, column: Seq<char>)
    requires
        forall|j: int| 0 <= j < rows.len() ==> whole_or_none(#[trigger] rows[j], column) && (integer_in(
            rows[j],
            column,
        ) matches Some(i) ==> float::magnitude_of(i) <= float::whole_limit()),
    ensures
        algebra::sum_over(rows, means::mean_whole(column)) == total(rows, column),
        algebra::sum_over(rows, algebra::size(means::mean_whole(column))) == magnitudes(rows, column),
        algebra::sum_over(rows, algebra::counted(column)) == how_many(rows, column),
        algebra::sum_over(rows, algebra::size(algebra::counted(column))) == how_many(rows, column),
        forall|j: int| 0 <= j < rows.len() ==> means::takes_whole(column)(#[trigger] rows[j]),
    decreases rows.len(),
{
    if rows.len() > 0 {
        let rest = rows.drop_last();
        let row = rows.last();
        assert forall|j: int| 0 <= j < rest.len() implies whole_or_none(#[trigger] rest[j], column) && (
        integer_in(rest[j], column) matches Some(i) ==> float::magnitude_of(i)
            <= float::whole_limit()) by {
            assert(rest[j] == rows[j]);
        }
        lemma_mean_sums(rest, column);
        assert(rows =~= rest.push(row));
        algebra::lemma_sum_push(rest, row, means::mean_whole(column));
        algebra::lemma_sum_push(rest, row, algebra::size(means::mean_whole(column)));
        algebra::lemma_sum_push(rest, row, algebra::counted(column));
        algebra::lemma_sum_push(rest, row, algebra::size(algebra::counted(column)));
        assert(whole_or_none(rows[rows.len() - 1], column));
        if let Some(i) = integer_in(row, column) {
            assert(integer_in(rows[rows.len() - 1], column) == Some(i));
            let f = float::nearest_int(i);
            float::lemma_grid(i, 1074);
            assert(crate::whole::is_whole(f, i));
            means::lemma_one_integer(f, i, means::integer_of(f));
        }
        assert forall|j: int| 0 <= j < rows.len() implies means::takes_whole(column)(
            #[trigger] rows[j],
        ) by {
            if j < rest.len() {
                assert(rest[j] == rows[j]);
                assert(means::takes_whole(column)(rest[j]));
            }
        }
    }
}

/// A query for rows asks for the column.
pub open spec fn asked(q: QueryView, column: Seq<char>) -> bool {
    q.projection matches Some(columns) ==> columns.len() == 0 || columns.contains(column)
}

/// `out` is `row` with the columns that the query asks for, and no others.
pub open spec fn narrowed(q: QueryView, row: RowView, out: RowView) -> bool {
    forall|c: Seq<char>|
        (#[trigger] out.dom().contains(c) <==> row.dom().contains(c) && asked(q, c)) && (
        out.dom().contains(c) ==> out[c] == row[c])
}

/// A query for rows gives the rows that meet its condition, all of them, in their order and each as often
/// as it stands there, with the columns that it asks for. The result are the places of these rows.
pub proof fn lemma_rows_asked_for(q: QueryView, rows: Seq<RowView>) -> (places: Seq<int>)
    ensures
        places.len() == q.projected(rows).len(),
        forall|n: int|
            0 <= n < places.len() ==> 0 <= #[trigger] places[n] < rows.len() && meets(
                q.predicate,
                rows[places[n]],
            ) && narrowed(q, rows[places[n]], q.projected(rows)[n]),
        forall|m: int, n: int| 0 <= m < n < places.len() ==> #[trigger] places[m] < #[trigger] places[n],
        forall|i: int|
            0 <= i < rows.len() && meets(q.predicate, #[trigger] rows[i]) ==> places.contains(i),
    decreases rows.len(),
{
    if rows.len() == 0 {
        Seq::empty()
    } else {
        let rest = rows.drop_last();
        let last = rows.last();
        let before = lemma_rows_asked_for(q, rest);
        let end = rows.len() - 1;
        let kept = q.kept(last);
        assert(narrowed(q, last, kept));
        assert forall|n: int| 0 <= n < before.len() implies 0 <= #[trigger] before[n] < rest.len()
            && rest[before[n]] == rows[before[n]] by {}
        if meets(q.predicate, last) {
            let places = before.push(end);
            assert forall|i: int| 0 <= i < rows.len() && meets(q.predicate, #[trigger] rows[i]) implies places.contains(
            i) by {
                if i < end {
                    assert(rest[i] == rows[i]);
                    let n = before.index_of(i);
                    assert(before[n] == i);
                    assert(places[n] == i);
                } else {
                    assert(places[before.len() as int] == i);
                }
            }
            places
        } else {
            assert forall|i: int| 0 <= i < rows.len() && meets(q.predicate, #[trigger] rows[i]) implies before.contains(
            i) by {
                assert(rest[i] == rows[i]);
            }
            before
        }
    }
}

/// What a query stands for is what stands in its fields, each under its own name.
pub proof fn lemma_query_is_its_fields(q: Query)
    ensures
        q.deep_view().dataset == q.dataset@,
        q.deep_view().limit == q.limit,
        q.deep_view().aggregates.len() == q.aggregates@.len(),
        q.deep_view().group_by.len() == q.group_by@.len(),
        q.deep_view().order_by.len() == q.order_by@.len(),
        q.deep_view().projection is Some <==> q.projection is Some,
        q.projection matches Some(c) ==> q.deep_view().projection->0.len() == c@.len(),
        q.deep_view().predicate == q.predicate.deep_view(),
        forall|i: int|
            0 <= i < q.aggregates@.len() ==> q.deep_view().aggregates[i]
                == #[trigger] q.aggregates@[i].deep_view(),
        forall|i: int|
            0 <= i < q.group_by@.len() ==> q.deep_view().group_by[i] == #[trigger] q.group_by@[i]@,
        forall|i: int|
            0 <= i < q.order_by@.len() ==> (#[trigger] q.deep_view().order_by[i]).column
                == q.order_by@[i].column@ && q.deep_view().order_by[i].dir == q.order_by@[i].dir,
        q.projection matches Some(c) ==> forall|i: int|
            0 <= i < c@.len() ==> q.deep_view().projection->0[i] == #[trigger] c@[i]@,
{
}

/// What aggregates and conditions stand for is what they are called.
pub proof fn lemma_names_are_kept(f: String, a: Predicate, b: Predicate)
    ensures
        Agg::Count.deep_view() == AggView::Count,
        Agg::Sum(f).deep_view() == AggView::Sum(f@),
        Agg::Min(f).deep_view() == AggView::Min(f@),
        Agg::Max(f).deep_view() == AggView::Max(f@),
        Agg::Avg(f).deep_view() == AggView::Avg(f@),
        Predicate::True.deep_view() == PredicateView::True,
        Predicate::And(Box::new(a), Box::new(b)).deep_view() == PredicateView::And(
            Box::new(a.deep_view()),
            Box::new(b.deep_view()),
        ),
        Predicate::Or(Box::new(a), Box::new(b)).deep_view() == PredicateView::Or(
            Box::new(a.deep_view()),
            Box::new(b.deep_view()),
        ),
        Predicate::Not(Box::new(a)).deep_view() == PredicateView::Not(Box::new(a.deep_view())),
        a matches Predicate::Cmp { field, op, value } ==> a.deep_view() == (PredicateView::Cmp {
            field: field@,
            op,
            value: value.deep_view(),
        }),
{
    reveal_with_fuel(query::predicate_view, 3);
}

} // verus!
