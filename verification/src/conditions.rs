//! What conditions mean: the laws of comparisons and of `AND`, `OR` and `NOT`.

use crate::dataset::RowView;
use crate::json::{CellView, JsonView, Num};
use crate::query::{meets, CmpOp, PredicateView};
use crate::text;
use vstd::arithmetic::power2::*;
use vstd::prelude::*;

verus! {

/// Both of two conditions.
pub open spec fn both(a: PredicateView, b: PredicateView) -> PredicateView {
    PredicateView::And(Box::new(a), Box::new(b))
}

/// One of two conditions at least.
pub open spec fn either(a: PredicateView, b: PredicateView) -> PredicateView {
    PredicateView::Or(Box::new(a), Box::new(b))
}

/// A condition turned round.
pub open spec fn no(a: PredicateView) -> PredicateView {
    PredicateView::Not(Box::new(a))
}

/// A comparison of a column with a value.
pub open spec fn compared(column: Seq<char>, op: CmpOp, value: JsonView) -> PredicateView {
    PredicateView::Cmp { field: column, op, value }
}

/// `OR` holds where either side does and nowhere else, in whichever order the sides stand.
pub proof fn lemma_or(a: PredicateView, b: PredicateView, c: PredicateView, row: RowView)
    ensures
        meets(a, row) ==> meets(either(a, b), row),
        meets(b, row) ==> meets(either(a, b), row),
        meets(either(a, b), row) && !meets(a, row) ==> meets(b, row),
        meets(either(a, b), row) == meets(either(b, a), row),
        meets(either(either(a, b), c), row) == meets(either(a, either(b, c)), row),
        meets(either(a, a), row) == meets(a, row),
        meets(either(a, no(a)), row),
{
    reveal_with_fuel(meets, 4);
}

/// `AND` holds where both sides do and nowhere else, in whichever order the sides stand.
pub proof fn lemma_and(a: PredicateView, b: PredicateView, c: PredicateView, row: RowView)
    ensures
        meets(both(a, b), row) ==> meets(a, row),
        meets(both(a, b), row) ==> meets(b, row),
        meets(a, row) && meets(b, row) ==> meets(both(a, b), row),
        meets(both(a, b), row) == meets(both(b, a), row),
        meets(both(both(a, b), c), row) == meets(both(a, both(b, c)), row),
        meets(both(a, PredicateView::True), row) == meets(a, row),
        !meets(both(a, no(a)), row),
{
    reveal_with_fuel(meets, 4);
}

/// A row meets a condition or the condition turned round, never both; what is turned round twice is as
/// it was; and to turn `AND` or `OR` round is to turn both sides round and to take the other word.
pub proof fn lemma_not(a: PredicateView, b: PredicateView, row: RowView)
    ensures
        meets(no(a), row) != meets(a, row),
        meets(no(no(a)), row) == meets(a, row),
        meets(no(either(a, b)), row) == meets(both(no(a), no(b)), row),
        meets(no(both(a, b)), row) == meets(either(no(a), no(b)), row),
        meets(PredicateView::True, row),
        !meets(no(PredicateView::True), row),
{
    reveal_with_fuel(meets, 4);
}

/// `AND` and `OR` distribute over each other.
pub proof fn lemma_distributes(a: PredicateView, b: PredicateView, c: PredicateView, row: RowView)
    ensures
        meets(both(a, either(b, c)), row) == meets(either(both(a, b), both(a, c)), row),
        meets(either(a, both(b, c)), row) == meets(both(either(a, b), either(a, c)), row),
{
    reveal_with_fuel(meets, 4);
}

/// A comparison looks at its own column only: rows with the same value there meet it alike, and one
/// that has no such column is taken as one that has null in it.
pub proof fn lemma_own_column(column: Seq<char>, op: CmpOp, value: JsonView, r: RowView, s: RowView)
    requires
        r.dom().contains(column) && s.dom().contains(column) ==> r[column].value == s[column].value,
        r.dom().contains(column) && !s.dom().contains(column) ==> r[column].value is Null,
        !r.dom().contains(column) && s.dom().contains(column) ==> s[column].value is Null,
    ensures
        meets(compared(column, op, value), r) == meets(compared(column, op, value), s),
{
}

/// How the operators hang together, whatever stands in the column and whatever it is compared with.
pub proof fn lemma_operators(column: Seq<char>, value: JsonView, row: RowView)
    ensures
        meets(compared(column, CmpOp::Ne, value), row) != meets(compared(column, CmpOp::Eq, value), row),
        meets(compared(column, CmpOp::Le, value), row) == (meets(compared(column, CmpOp::Lt, value), row) || meets(
            compared(column, CmpOp::Eq, value),
            row,
        )),
        meets(compared(column, CmpOp::Ge, value), row) == (meets(compared(column, CmpOp::Gt, value), row) || meets(
            compared(column, CmpOp::Eq, value),
            row,
        )),
        !(meets(compared(column, CmpOp::Lt, value), row) && meets(compared(column, CmpOp::Gt, value), row)),
        !(meets(compared(column, CmpOp::Lt, value), row) && meets(compared(column, CmpOp::Eq, value), row)),
        !(meets(compared(column, CmpOp::Gt, value), row) && meets(compared(column, CmpOp::Eq, value), row)),
{
}

/// A row of one column.
pub open spec fn row_with(column: Seq<char>, value: JsonView) -> RowView {
    Map::empty().insert(column, CellView { value, text: Seq::empty() })
}

/// What is less than a value is that than which the value is greater, and what equals it is that which
/// it equals.
pub proof fn lemma_mirrored(column: Seq<char>, a: JsonView, b: JsonView)
    ensures
        meets(compared(column, CmpOp::Lt, b), row_with(column, a)) == meets(
            compared(column, CmpOp::Gt, a),
            row_with(column, b),
        ),
        meets(compared(column, CmpOp::Le, b), row_with(column, a)) == meets(
            compared(column, CmpOp::Ge, a),
            row_with(column, b),
        ),
        meets(compared(column, CmpOp::Eq, b), row_with(column, a)) == meets(
            compared(column, CmpOp::Eq, a),
            row_with(column, b),
        ),
{
    if let (JsonView::String(x), JsonView::String(y)) = (a, b) {
        text::lemma_order(x, y, x);
    }
}

/// Integers are compared as integers.
pub proof fn lemma_integers(column: Seq<char>, row: RowView, i: i128, j: i128)
    requires
        row.dom().contains(column),
        row[column].value == JsonView::Number(Num::Int(i)),
    ensures
        ({
            let v = JsonView::Number(Num::Int(j));
            &&& meets(compared(column, CmpOp::Eq, v), row) <==> i == j
            &&& meets(compared(column, CmpOp::Ne, v), row) <==> i != j
            &&& meets(compared(column, CmpOp::Lt, v), row) <==> i < j
            &&& meets(compared(column, CmpOp::Le, v), row) <==> i <= j
            &&& meets(compared(column, CmpOp::Gt, v), row) <==> i > j
            &&& meets(compared(column, CmpOp::Ge, v), row) <==> i >= j
        }),
{
}

/// The exact value of a number, in units of which an integer of 1 has 2 to the power 1074; none where it
/// is not a number.
pub open spec fn exact_value(n: Num) -> Option<int> {
    match n {
        Num::Int(i) => Some(i * pow2(1074)),
        Num::Float(f) => if f.is_nan_spec() {
            None
        } else {
            Some(f.units())
        },
    }
}

/// Numbers are compared by their exact values, whichever of the two kinds they are of.
pub proof fn lemma_numbers(column: Seq<char>, row: RowView, m: Num, n: Num)
    requires
        row.dom().contains(column),
        row[column].value == JsonView::Number(m),
        exact_value(m) is Some,
        exact_value(n) is Some,
    ensures
        ({
            let v = JsonView::Number(n);
            let (x, y) = (exact_value(m)->0, exact_value(n)->0);
            &&& meets(compared(column, CmpOp::Eq, v), row) <==> x == y
            &&& meets(compared(column, CmpOp::Lt, v), row) <==> x < y
            &&& meets(compared(column, CmpOp::Gt, v), row) <==> x > y
        }),
{
    crate::query::lemma_num_order(m, n);
    crate::query::lemma_num_order(n, m);
}

/// Strings are compared by the first character in which they differ, and one that another starts with
/// is less than it.
pub proof fn lemma_strings(
    column: Seq<char>,
    row: RowView,
    start: Seq<char>,
    a: Seq<char>,
    b: Seq<char>,
)
    requires
        row.dom().contains(column),
        row[column].value == JsonView::String(start + a),
        a.len() == 0 || b.len() == 0 || a[0] != b[0],
    ensures
        ({
            let v = JsonView::String(start + b);
            &&& meets(compared(column, CmpOp::Eq, v), row) <==> a.len() == 0 && b.len() == 0
            &&& meets(compared(column, CmpOp::Lt, v), row) <==> b.len() > 0 && (a.len() == 0 || (a[0] as u32)
                < (b[0] as u32))
            &&& meets(compared(column, CmpOp::Gt, v), row) <==> a.len() > 0 && (b.len() == 0 || (b[0] as u32)
                < (a[0] as u32))
        }),
    decreases start.len(),
{
    lemma_precedes(start, a, b);
    lemma_precedes(start, b, a);
    if start + a == start + b {
        assert(a =~= (start + a).skip(start.len() as int));
        assert(b =~= (start + b).skip(start.len() as int));
        if a.len() > 0 {
            assert(a[0] == b[0]);
        }
    }
    if a.len() == 0 && b.len() == 0 {
        assert(start + a =~= start + b);
    }
    if a.len() > 0 && b.len() > 0 {
        lemma_codes(a[0], b[0]);
    }
}

pub(crate) proof fn lemma_codes(x: char, y: char)
    ensures
        x as u32 == y as u32 ==> x == y,
{
}

pub(crate) proof fn lemma_precedes(start: Seq<char>, a: Seq<char>, b: Seq<char>)
    requires
        a.len() == 0 || b.len() == 0 || a[0] != b[0],
    ensures
        text::precedes(start + a, start + b) <==> b.len() > 0 && (a.len() == 0 || (a[0] as u32) < (
        b[0] as u32)),
    decreases start.len(),
{
    if start.len() == 0 {
        assert(start + a =~= a);
        assert(start + b =~= b);
    } else {
        let rest = start.skip(1);
        lemma_precedes(rest, a, b);
        assert((start + a).skip(1) =~= rest + a);
        assert((start + b).skip(1) =~= rest + b);
    }
}

/// False comes before true, and null equals null alone.
pub proof fn lemma_bools(column: Seq<char>, row: RowView, a: bool, b: bool)
    requires
        row.dom().contains(column),
    ensures
        row[column].value == JsonView::Bool(a) ==> {
            let v = JsonView::Bool(b);
            &&& meets(compared(column, CmpOp::Eq, v), row) <==> a == b
            &&& meets(compared(column, CmpOp::Lt, v), row) <==> !a && b
            &&& meets(compared(column, CmpOp::Gt, v), row) <==> a && !b
        },
        meets(compared(column, CmpOp::Eq, JsonView::Null), row) <==> row[column].value is Null,
        !meets(compared(column, CmpOp::Lt, JsonView::Null), row),
        !meets(compared(column, CmpOp::Gt, JsonView::Null), row),
{
}

/// Of values of different types, and of arrays and objects, only `!=` holds.
pub proof fn lemma_types(column: Seq<char>, op: CmpOp, row: RowView, value: JsonView)
    requires
        row.dom().contains(column),
        row[column].value is Array || row[column].value is Object || value is Array || value is Object
            || (row[column].value is Null) != (value is Null) || (row[column].value is Bool) != (
        value is Bool) || (row[column].value is Number) != (value is Number)
            || (row[column].value is String) != (value is String),
    ensures
        meets(compared(column, op, value), row) <==> op == CmpOp::Ne,
{
}

/// A comparison is transitive.
pub proof fn lemma_transitive(column: Seq<char>, a: JsonView, b: JsonView, c: JsonView)
    ensures
        meets(compared(column, CmpOp::Lt, b), row_with(column, a)) && meets(
            compared(column, CmpOp::Lt, c),
            row_with(column, b),
        ) ==> meets(compared(column, CmpOp::Lt, c), row_with(column, a)),
        meets(compared(column, CmpOp::Eq, b), row_with(column, a)) && meets(
            compared(column, CmpOp::Lt, c),
            row_with(column, b),
        ) ==> meets(compared(column, CmpOp::Lt, c), row_with(column, a)),
{
    match (a, b, c) {
        (JsonView::String(x), JsonView::String(y), JsonView::String(z)) => {
            text::lemma_order(x, y, z);
        },
        (JsonView::Number(x), JsonView::Number(y), JsonView::Number(z)) => {
            crate::query::lemma_num_order(x, y);
            crate::query::lemma_num_order(y, z);
            crate::query::lemma_num_order(x, z);
        },
        _ => {},
    }
}

} // verus!
