//! The order and the number of result rows: `ORDER BY` and `LIMIT`.

use crate::combine::{GroupResult, GroupView};
use crate::dataset::{Row, RowView};
use crate::json::{Json, JsonView, Num};
use crate::query;
use crate::query::{json_cmp, OrderDir, OrderKey, OrderKeyView};
use crate::sort;
use crate::sort::{sort, Ranking};
use crate::table::Duplicate;
use crate::text;
use crate::text::equal;
use std::cmp::Ordering;
use vstd::prelude::*;

verus! {

/// The place of a type among the types of values. A number that is not one stands before the
/// others.
pub open spec fn rank(v: JsonView) -> int {
    match v {
        JsonView::Null => 0,
        JsonView::Bool(_) => 1,
        JsonView::Number(n) => if query::num_is_nan(n) {
            2
        } else {
            3
        },
        JsonView::String(_) => 4,
        JsonView::Array(_) => 5,
        JsonView::Object(_) => 6,
    }
}

/// How two cells are ordered: values of one type by value, others by their types. Arrays are equal
/// among each other, and so are objects.
pub open spec fn cell_order(a: JsonView, b: JsonView) -> Ordering {
    match query::json_order(a, b) {
        Some(o) => o,
        None => if rank(a) < rank(b) {
            Ordering::Less
        } else if rank(a) > rank(b) {
            Ordering::Greater
        } else {
            Ordering::Equal
        },
    }
}

/// Cell `a` comes before cell `b`.
pub open spec fn cell_less(a: JsonView, b: JsonView) -> bool {
    cell_order(a, b) == Ordering::Less
}

/// The place of a type among the types of values.
fn type_rank(v: &Json) -> (r: u8)
    ensures
        r == rank(v.deep_view()),
{
    match v {
        Json::Null => 0,
        Json::Bool(_) => 1,
        Json::Number(Num::Float(f)) => if f.is_nan() {
            2
        } else {
            3
        },
        Json::Number(Num::Int(_)) => 3,
        Json::String(_) => 4,
        Json::Array(_) => 5,
        Json::Object(_) => 6,
    }
}

/// How two cells are ordered. The order is total.
pub fn cell_cmp(a: &Json, b: &Json) -> (r: Ordering)
    ensures
        r == cell_order(a.deep_view(), b.deep_view()),
{
    match json_cmp(a, b) {
        Some(o) => o,
        None => {
            let x: u8 = type_rank(a);
            let y: u8 = type_rank(b);
            if x < y {
                Ordering::Less
            } else if x > y {
                Ordering::Greater
            } else {
                Ordering::Equal
            }
        },
    }
}

/// Whether cell `a` comes before cell `b`.
fn cell_is_less(a: &Json, b: &Json) -> (r: bool)
    ensures
        r == cell_less(a.deep_view(), b.deep_view()),
{
    match cell_cmp(a, b) {
        Ordering::Less => true,
        _ => false,
    }
}

/// The order of cells: of two at most one comes before the other, the other way round they are
/// ordered the other way round, and where one comes before another any third one comes after the
/// first or before the second.
pub proof fn lemma_cells(a: JsonView, b: JsonView, c: JsonView)
    ensures
        !(cell_less(a, b) && cell_less(b, a)),
        cell_order(a, b) == Ordering::Greater <==> cell_less(b, a),
        cell_less(a, c) ==> cell_less(a, b) || cell_less(b, c),
{
    if let JsonView::Number(x) = a {
        if let JsonView::Number(y) = b {
            query::lemma_num_order(x, y);
            query::lemma_num_order(y, x);
            if let JsonView::Number(z) = c {
                query::lemma_num_order(x, z);
                query::lemma_num_order(y, z);
            }
        }
        if let JsonView::Number(z) = c {
            query::lemma_num_order(x, z);
            query::lemma_num_order(z, x);
        }
    }
    if let JsonView::String(x) = a {
        if let JsonView::String(y) = b {
            text::lemma_order(x, y, x);
            text::lemma_order(y, x, y);
            if let JsonView::String(z) = c {
                text::lemma_order(x, y, z);
                text::lemma_order(y, x, z);
                text::lemma_order(x, z, y);
                text::lemma_order(z, y, x);
            }
        }
    }
}

/// Cell `a` comes before cell `b` in a direction.
pub open spec fn directed_less(a: JsonView, b: JsonView, dir: OrderDir) -> bool {
    if dir == OrderDir::Asc {
        cell_less(a, b)
    } else {
        cell_less(b, a)
    }
}

/// The cells `x` do not come after the cells `y`: the first two that differ decide.
pub open spec fn keys_le(x: Seq<JsonView>, y: Seq<JsonView>, dirs: Seq<OrderDir>) -> bool
    decreases dirs.len(),
{
    if dirs.len() == 0 {
        true
    } else if directed_less(x[0], y[0], dirs[0]) {
        true
    } else if directed_less(y[0], x[0], dirs[0]) {
        false
    } else {
        keys_le(x.skip(1), y.skip(1), dirs.skip(1))
    }
}

/// The order by several cells is total.
pub proof fn lemma_keys(x: Seq<JsonView>, y: Seq<JsonView>, z: Seq<JsonView>, dirs: Seq<OrderDir>)
    ensures
        keys_le(x, y, dirs) || keys_le(y, x, dirs),
        keys_le(x, y, dirs) && keys_le(y, z, dirs) ==> keys_le(x, z, dirs),
    decreases dirs.len(),
{
    if dirs.len() > 0 {
        lemma_cells(x[0], y[0], z[0]);
        lemma_cells(y[0], x[0], z[0]);
        lemma_cells(z[0], y[0], x[0]);
        lemma_cells(x[0], z[0], y[0]);
        lemma_cells(y[0], z[0], x[0]);
        lemma_cells(z[0], x[0], y[0]);
        lemma_keys(x.skip(1), y.skip(1), z.skip(1), dirs.skip(1));
    }
}

/// The ranking of places by the cells to sort by.
pub open spec fn ranked(keys: Seq<Seq<JsonView>>, dirs: Seq<OrderDir>) -> spec_fn(int, int) -> bool {
    |i: int, j: int| keys_le(keys[i], keys[j], dirs)
}

/// The directions to sort in.
pub open spec fn directions(order_by: Seq<OrderKeyView>) -> Seq<OrderDir> {
    Seq::new(order_by.len(), |i: int| order_by[i].dir)
}

/// The first place of `x` in `s`, or the length of `s`.
pub open spec fn first_place(s: Seq<Seq<char>>, x: Seq<char>) -> nat
    decreases s.len(),
{
    if s.len() == 0 || s[0] == x {
        0
    } else {
        1 + first_place(s.skip(1), x)
    }
}

/// The cell of a result row in a column: part of its key where the rows are grouped by the column,
/// otherwise the output value of that name.
pub open spec fn group_cell(row: GroupView, group_by: Seq<Seq<char>>, column: Seq<char>) -> Option<
    JsonView,
> {
    if first_place(group_by, column) < group_by.len() {
        let at = first_place(group_by, column);
        if at < row.key.len() {
            Some(JsonView::String(row.key[at as int]))
        } else {
            None
        }
    } else if row.values.dom().contains(column) {
        Some(row.values[column])
    } else {
        None
    }
}

/// A cell, null where there is none.
pub open spec fn or_null(cell: Option<JsonView>) -> JsonView {
    match cell {
        Some(v) => v,
        None => JsonView::Null,
    }
}

/// The cells of a result row to sort by.
pub open spec fn group_key(row: GroupView, group_by: Seq<Seq<char>>, order_by: Seq<OrderKeyView>) -> Seq<
    JsonView,
> {
    Seq::new(order_by.len(), |i: int| or_null(group_cell(row, group_by, order_by[i].column)))
}

/// The cells of a row to sort by.
pub open spec fn row_key(row: RowView, order_by: Seq<OrderKeyView>) -> Seq<JsonView> {
    Seq::new(order_by.len(), |i: int| query::cell_value(row, order_by[i].column))
}

/// The cells to sort by of all result rows.
pub open spec fn group_keys(
    rows: Seq<GroupView>,
    group_by: Seq<Seq<char>>,
    order_by: Seq<OrderKeyView>,
) -> Seq<Seq<JsonView>> {
    Seq::new(rows.len(), |i: int| group_key(rows[i], group_by, order_by))
}

/// The cells to sort by of all rows.
pub open spec fn row_keys(rows: Seq<RowView>, order_by: Seq<OrderKeyView>) -> Seq<Seq<JsonView>> {
    Seq::new(rows.len(), |i: int| row_key(rows[i], order_by))
}

/// Result rows in the order asked for; those equal in it stay in the order that they had.
pub open spec fn ordered_groups(
    rows: Seq<GroupView>,
    group_by: Seq<Seq<char>>,
    order_by: Seq<OrderKeyView>,
) -> Seq<GroupView> {
    sort::arranged(
        rows,
        sort::arrangement(
            rows.len() as int,
            ranked(group_keys(rows, group_by, order_by), directions(order_by)),
        ),
    )
}

/// Rows in the order asked for; those equal in it stay in the order that they had.
pub open spec fn ordered_rows(rows: Seq<RowView>, order_by: Seq<OrderKeyView>) -> Seq<RowView> {
    sort::arranged(
        rows,
        sort::arrangement(
            rows.len() as int,
            ranked(row_keys(rows, order_by), directions(order_by)),
        ),
    )
}

/// Rows are in the order asked for.
pub open spec fn sorted_rows(rows: Seq<RowView>, order_by: Seq<OrderKeyView>) -> bool {
    forall|i: int, j: int|
        0 <= i < j < rows.len() ==> keys_le(
            row_key(#[trigger] rows[i], order_by),
            row_key(#[trigger] rows[j], order_by),
            directions(order_by),
        )
}

/// Rows in the order asked for are those given, each as many times, and in that order.
pub proof fn lemma_rows_sorted(rows: Seq<RowView>, order_by: Seq<OrderKeyView>)
    ensures
        ordered_rows(rows, order_by).to_multiset() == rows.to_multiset(),
        ordered_rows(rows, order_by).len() == rows.len(),
        sorted_rows(ordered_rows(rows, order_by), order_by),
{
    let n = rows.len() as int;
    let keys = row_keys(rows, order_by);
    let dirs = directions(order_by);
    let le = ranked(keys, dirs);
    assert forall|i: int, j: int| 0 <= i < n && 0 <= j < n implies #[trigger] le(i, j) || le(j, i) by {
        lemma_keys(keys[i], keys[j], keys[i], dirs);
    }
    assert forall|i: int, j: int, k: int|
        0 <= i < n && 0 <= j < n && 0 <= k < n && #[trigger] le(i, j) && #[trigger] le(j, k) implies le(
        i,
        k,
    ) by {
        lemma_keys(keys[i], keys[j], keys[k], dirs);
    }
    sort::lemma_arrangement_exists(n, le);
    let p = sort::arrangement(n, le);
    sort::lemma_places(p, n);
    sort::lemma_arranged_multiset(rows, p);
    let out = ordered_rows(rows, order_by);
    assert forall|i: int, j: int| 0 <= i < j < out.len() implies keys_le(
        row_key(#[trigger] out[i], order_by),
        row_key(#[trigger] out[j], order_by),
        dirs,
    ) by {
        assert(sort::first(le, p[i], p[j]));
        assert(out[i] == rows[p[i]] && out[j] == rows[p[j]]);
        assert(le(p[i], p[j]));
    }
}

/// The first rows, as many as the limit lets.
pub open spec fn limited<T>(rows: Seq<T>, limit: Option<usize>) -> Seq<T> {
    match limit {
        Some(n) => if n < rows.len() {
            rows.take(n as int)
        } else {
            rows
        },
        None => rows,
    }
}

/// The cell of a result row in a column.
pub fn row_cell(row: &GroupResult, group_by: &[String], column: &str) -> (r: Option<Json>)
    ensures
        r.deep_view() == group_cell(row.deep_view(), group_by.deep_view(), column@),
{
    let ghost all = group_by.deep_view();
    let mut i: usize = 0;
    proof {
        assert(all.skip(0) =~= all);
    }
    while i < group_by.len()
        invariant
            i <= group_by@.len(),
            all == group_by.deep_view(),
            first_place(all, column@) == i + first_place(all.skip(i as int), column@),
        decreases group_by@.len() - i,
    {
        if equal(group_by[i].as_str(), column) {
            proof {
                assert(all.skip(i as int)[0] == column@);
            }
            return if i < row.key.len() {
                Some(Json::String(row.key[i].clone()))
            } else {
                None
            };
        }
        proof {
            assert(all.skip(i as int).skip(1) =~= all.skip(i + 1));
            assert(all.skip(i as int)[0] == group_by@[i as int]@);
        }
        i = i + 1;
    }
    match row.values.get(&column.to_owned()) {
        Some(v) => Some(v.duplicate()),
        None => None,
    }
}

/// Rows by the cells to sort by.
struct ByKeys<'a> {
    keys: &'a Vec<Vec<Json>>,
    order_by: &'a [OrderKey],
}

impl<'a> ByKeys<'a> {
    /// Every row has a cell for every column to sort by.
    #[verifier::type_invariant]
    spec fn complete(&self) -> bool {
        forall|i: int| 0 <= i < self.keys@.len() ==> (#[trigger] self.keys@[i])@.len() == self.order_by@.len()
    }
}

impl<'a> Ranking for ByKeys<'a> {
    closed spec fn size(&self) -> int {
        self.keys@.len() as int
    }

    closed spec fn le(&self) -> spec_fn(int, int) -> bool {
        ranked(self.keys.deep_view(), directions(self.order_by.deep_view()))
    }

    proof fn lemma_total(&self) {
        let keys = self.keys.deep_view();
        let dirs = directions(self.order_by.deep_view());
        let le = self.le();
        let n = self.size();
        assert forall|i: int, j: int| 0 <= i < n && 0 <= j < n implies #[trigger] le(i, j) || le(j, i) by {
            lemma_keys(keys[i], keys[j], keys[j], dirs);
        }
        assert forall|i: int, j: int, k: int|
            0 <= i < n && 0 <= j < n && 0 <= k < n && #[trigger] le(i, j) && #[trigger] le(j, k) implies le(
            i,
            k,
        ) by {
            lemma_keys(keys[i], keys[j], keys[k], dirs);
        }
    }

    fn not_after(&self, i: usize, j: usize) -> (r: bool) {
        proof {
            use_type_invariant(self);
        }
        let a: &Vec<Json> = &self.keys[i];
        let b: &Vec<Json> = &self.keys[j];
        let ghost x = a.deep_view();
        let ghost y = b.deep_view();
        let ghost dirs = directions(self.order_by.deep_view());
        let mut k: usize = 0;
        proof {
            assert(x.skip(0) =~= x);
            assert(y.skip(0) =~= y);
            assert(dirs.skip(0) =~= dirs);
        }
        while k < self.order_by.len() && k < a.len() && k < b.len()
            invariant
                k <= self.order_by@.len(),
                k <= a@.len(),
                k <= b@.len(),
                x == a.deep_view(),
                y == b.deep_view(),
                x == self.keys.deep_view()[i as int],
                y == self.keys.deep_view()[j as int],
                dirs == directions(self.order_by.deep_view()),
                keys_le(x, y, dirs) == keys_le(x.skip(k as int), y.skip(k as int), dirs.skip(k as int)),
            decreases self.order_by@.len() - k,
        {
            proof {
                assert(x.skip(k as int)[0] == x[k as int]);
                assert(y.skip(k as int)[0] == y[k as int]);
                assert(dirs.skip(k as int)[0] == self.order_by@[k as int].dir);
                assert(x.skip(k as int).skip(1) =~= x.skip(k + 1));
                assert(y.skip(k as int).skip(1) =~= y.skip(k + 1));
                assert(dirs.skip(k as int).skip(1) =~= dirs.skip(k + 1));
            }
            let (p, q): (&Json, &Json) = if self.order_by[k].dir == OrderDir::Asc {
                (&a[k], &b[k])
            } else {
                (&b[k], &a[k])
            };
            if cell_is_less(p, q) {
                return true;
            }
            if cell_is_less(q, p) {
                return false;
            }
            k = k + 1;
        }
        proof {
            assert(self.keys@[i as int]@.len() == self.order_by@.len());
            assert(self.keys@[j as int]@.len() == self.order_by@.len());
            assert(dirs.skip(k as int) =~= Seq::<OrderDir>::empty());
        }
        true
    }
}

/// The stable arrangement of rows by their cells to sort by.
fn arrange(keys: &Vec<Vec<Json>>, order_by: &[OrderKey]) -> (r: Vec<usize>)
    requires
        forall|i: int| 0 <= i < keys@.len() ==> (#[trigger] keys@[i])@.len() == order_by@.len(),
    ensures
        ({
            let le = ranked(keys.deep_view(), directions(order_by.deep_view()));
            let n = keys@.len() as int;
            sort::ints(r@) == sort::arrangement(n, le) && sort::is_arrangement(sort::ints(r@), n, le)
        }),
        r@.len() == keys@.len(),
        forall|i: int| 0 <= i < r@.len() ==> #[trigger] r@[i] < keys@.len(),
{
    let ranking = ByKeys { keys, order_by };
    sort(&ranking, keys.len())
}

/// The members of a sequence at places.
fn pick<T: Duplicate>(rows: &Vec<T>, p: &Vec<usize>) -> (r: Vec<T>)
    requires
        forall|i: int| 0 <= i < p@.len() ==> #[trigger] p@[i] < rows@.len(),
    ensures
        r.deep_view() == sort::arranged(rows.deep_view(), sort::ints(p@)),
{
    let mut out: Vec<T> = Vec::new();
    let mut i: usize = 0;
    while i < p.len()
        invariant
            i <= p@.len(),
            forall|j: int| 0 <= j < p@.len() ==> #[trigger] p@[j] < rows@.len(),
            out@.len() == i,
            forall|j: int|
                0 <= j < i ==> (#[trigger] out@[j]).deep_view() == rows@[p@[j] as int].deep_view(),
        decreases p@.len() - i,
    {
        assert(p@[i as int] < rows@.len());
        out.push(rows[p[i]].duplicate());
        i = i + 1;
    }
    proof {
        assert(out.deep_view() =~= sort::arranged(rows.deep_view(), sort::ints(p@)));
    }
    out
}

/// Sorts result rows. Those equal in all columns to sort by stay in the order that they had.
pub fn order_rows(rows: &mut Vec<GroupResult>, group_by: &[String], order_by: &[OrderKey])
    ensures
        final(rows).deep_view() == ordered_groups(
            old(rows).deep_view(),
            group_by.deep_view(),
            order_by.deep_view(),
        ),
        final(rows).deep_view().to_multiset() == old(rows).deep_view().to_multiset(),
        forall|i: int, j: int|
            0 <= i < j < final(rows).deep_view().len() ==> keys_le(
                group_key(
                    #[trigger] final(rows).deep_view()[i],
                    group_by.deep_view(),
                    order_by.deep_view(),
                ),
                group_key(
                    #[trigger] final(rows).deep_view()[j],
                    group_by.deep_view(),
                    order_by.deep_view(),
                ),
                directions(order_by.deep_view()),
            ),
{
    let ghost all = rows.deep_view();
    let ghost wanted = group_keys(all, group_by.deep_view(), order_by.deep_view());
    let mut keys: Vec<Vec<Json>> = Vec::new();
    let mut i: usize = 0;
    while i < rows.len()
        invariant
            i <= rows@.len(),
            all == rows.deep_view(),
            wanted == group_keys(all, group_by.deep_view(), order_by.deep_view()),
            keys@.len() == i,
            forall|j: int|
                0 <= j < i ==> (#[trigger] keys@[j]).deep_view() == wanted[j] && keys@[j]@.len()
                    == order_by@.len(),
        decreases rows@.len() - i,
    {
        let mut key: Vec<Json> = Vec::new();
        let mut k: usize = 0;
        while k < order_by.len()
            invariant
                i < rows@.len(),
                all == rows.deep_view(),
                wanted == group_keys(all, group_by.deep_view(), order_by.deep_view()),
                k <= order_by@.len(),
                key@.len() == k,
                forall|j: int| 0 <= j < k ==> (#[trigger] key@[j]).deep_view() == wanted[i as int][j],
            decreases order_by@.len() - k,
        {
            let cell: Json = match row_cell(&rows[i], group_by, order_by[k].column.as_str()) {
                Some(v) => v,
                None => Json::Null,
            };
            key.push(cell);
            k = k + 1;
        }
        proof {
            assert(key.deep_view() =~= wanted[i as int]);
        }
        keys.push(key);
        i = i + 1;
    }
    proof {
        assert(keys.deep_view() =~= wanted);
    }
    let p: Vec<usize> = arrange(&keys, order_by);
    let sorted: Vec<GroupResult> = pick(rows, &p);
    proof {
        sort::lemma_places(sort::ints(p@), all.len() as int);
        sort::lemma_arranged_multiset(all, sort::ints(p@));
    }
    *rows = sorted;
}

/// Sorts rows. Those equal in all columns to sort by stay in the order that they had.
pub fn order_raw_rows(rows: &mut Vec<Row>, order_by: &[OrderKey])
    ensures
        final(rows).deep_view() == ordered_rows(old(rows).deep_view(), order_by.deep_view()),
        final(rows).deep_view().to_multiset() == old(rows).deep_view().to_multiset(),
        forall|i: int, j: int|
            0 <= i < j < final(rows).deep_view().len() ==> keys_le(
                row_key(#[trigger] final(rows).deep_view()[i], order_by.deep_view()),
                row_key(#[trigger] final(rows).deep_view()[j], order_by.deep_view()),
                directions(order_by.deep_view()),
            ),
{
    let ghost all = rows.deep_view();
    let ghost wanted = row_keys(all, order_by.deep_view());
    let mut keys: Vec<Vec<Json>> = Vec::new();
    let mut i: usize = 0;
    while i < rows.len()
        invariant
            i <= rows@.len(),
            all == rows.deep_view(),
            wanted == row_keys(all, order_by.deep_view()),
            keys@.len() == i,
            forall|j: int|
                0 <= j < i ==> (#[trigger] keys@[j]).deep_view() == wanted[j] && keys@[j]@.len()
                    == order_by@.len(),
        decreases rows@.len() - i,
    {
        let mut key: Vec<Json> = Vec::new();
        let mut k: usize = 0;
        while k < order_by.len()
            invariant
                i < rows@.len(),
                all == rows.deep_view(),
                wanted == row_keys(all, order_by.deep_view()),
                k <= order_by@.len(),
                key@.len() == k,
                forall|j: int| 0 <= j < k ==> (#[trigger] key@[j]).deep_view() == wanted[i as int][j],
            decreases order_by@.len() - k,
        {
            let cell: Json = match rows[i].get(&order_by[k].column) {
                Some(c) => c.value.duplicate(),
                None => Json::Null,
            };
            key.push(cell);
            k = k + 1;
        }
        proof {
            assert(key.deep_view() =~= wanted[i as int]);
        }
        keys.push(key);
        i = i + 1;
    }
    proof {
        assert(keys.deep_view() =~= wanted);
    }
    let p: Vec<usize> = arrange(&keys, order_by);
    let sorted: Vec<Row> = pick(rows, &p);
    proof {
        sort::lemma_places(sort::ints(p@), all.len() as int);
        sort::lemma_arranged_multiset(all, sort::ints(p@));
    }
    *rows = sorted;
}

/// Keeps the first rows, as many as the limit lets.
pub fn apply_limit(rows: &mut Vec<GroupResult>, limit: Option<usize>)
    ensures
        final(rows).deep_view() == limited(old(rows).deep_view(), limit),
{
    let ghost all = rows.deep_view();
    if let Some(n) = limit {
        if n < rows.len() {
            rows.truncate(n);
            proof {
                assert(rows.deep_view() =~= all.take(n as int));
            }
        }
    }
}

/// Without columns to sort by, rows stay in the order that they had.
pub proof fn lemma_no_order(groups: Seq<GroupView>, group_by: Seq<Seq<char>>, rows: Seq<RowView>)
    ensures
        ordered_groups(groups, group_by, Seq::empty()) == groups,
        ordered_rows(rows, Seq::empty()) == rows,
{
    let none = Seq::<OrderKeyView>::empty();
    let n = groups.len() as int;
    let m = rows.len() as int;
    let le = ranked(group_keys(groups, group_by, none), directions(none));
    assert(sort::is_arrangement(sort::places(0, n), n, le));
    sort::lemma_arrangement_is(sort::places(0, n), n, le);
    assert(ordered_groups(groups, group_by, none) =~= groups);
    let le = ranked(row_keys(rows, none), directions(none));
    assert(sort::is_arrangement(sort::places(0, m), m, le));
    sort::lemma_arrangement_is(sort::places(0, m), m, le);
    assert(ordered_rows(rows, none) =~= rows);
}

/// The value in a column of a row, null where it has no such column.
pub open spec fn held(row: RowView, column: Seq<char>) -> JsonView {
    if row.dom().contains(column) {
        row[column].value
    } else {
        JsonView::Null
    }
}

/// What a result row shows in a column: the part of its key where it is grouped by that column, the
/// output of that name otherwise, and null where there is neither.
pub open spec fn shown(g: GroupView, group_by: Seq<Seq<char>>, column: Seq<char>) -> JsonView {
    if group_by.contains(column) {
        let at = group_by.index_of_first(column)->0;
        if at < g.key.len() {
            JsonView::String(g.key[at])
        } else {
            JsonView::Null
        }
    } else if g.values.dom().contains(column) {
        g.values[column]
    } else {
        JsonView::Null
    }
}

/// Of two lists of cells the first comes before the second: up to some key they are equal, and in that
/// key the first has the lesser cell where the key goes up and the greater where it goes down.
pub open spec fn leads(x: Seq<JsonView>, y: Seq<JsonView>, order_by: Seq<OrderKeyView>) -> bool {
    exists|k: int|
        0 <= k < order_by.len() && tied(x, y, k) && cell_order(#[trigger] x[k], y[k]) == (match order_by[k].dir {
            OrderDir::Asc => Ordering::Less,
            OrderDir::Desc => Ordering::Greater,
        })
}

/// Two lists of cells are equal in every key.
pub open spec fn even(x: Seq<JsonView>, y: Seq<JsonView>) -> bool {
    forall|m: int| 0 <= m < x.len() ==> cell_order(#[trigger] x[m], y[m]) == Ordering::Equal
}

/// Two lists of cells are equal in the first `k` keys.
pub open spec fn tied(x: Seq<JsonView>, y: Seq<JsonView>, k: int) -> bool {
    forall|m: int| 0 <= m < k ==> cell_order(#[trigger] x[m], y[m]) == Ordering::Equal
}

proof fn lemma_leads(x: Seq<JsonView>, y: Seq<JsonView>, order_by: Seq<OrderKeyView>)
    requires
        x.len() == order_by.len(),
        y.len() == order_by.len(),
        keys_le(x, y, directions(order_by)),
    ensures
        leads(x, y, order_by) || even(x, y),
        even(x, y) ==> keys_le(y, x, directions(order_by)),
    decreases order_by.len(),
{
    if order_by.len() > 0 {
        let dirs = directions(order_by);
        lemma_cells(x[0], y[0], x[0]);
        lemma_cells(y[0], x[0], y[0]);
        assert(dirs[0] == order_by[0].dir);
        if directed_less(x[0], y[0], dirs[0]) {
            assert(tied(x, y, 0));
            assert(leads(x, y, order_by));
        } else {
            let rest = order_by.skip(1);
            assert(dirs.skip(1) =~= directions(rest));
            lemma_leads(x.skip(1), y.skip(1), rest);
            assert(cell_order(x[0], y[0]) == Ordering::Equal);
            if leads(x.skip(1), y.skip(1), rest) {
                let k = choose|k: int|
                    0 <= k < rest.len() && tied(x.skip(1), y.skip(1), k) && cell_order(
                        #[trigger] x.skip(1)[k],
                        y.skip(1)[k],
                    ) == (match rest[k].dir {
                        OrderDir::Asc => Ordering::Less,
                        OrderDir::Desc => Ordering::Greater,
                    });
                assert forall|m: int| 0 <= m < k + 1 implies cell_order(#[trigger] x[m], y[m])
                    == Ordering::Equal by {
                    if m > 0 {
                        assert(x.skip(1)[m - 1] == x[m] && y.skip(1)[m - 1] == y[m]);
                    }
                }
                assert(tied(x, y, k + 1));
                assert(x[k + 1] == x.skip(1)[k]);
            } else {
                assert forall|m: int| 0 <= m < order_by.len() implies cell_order(#[trigger] x[m], y[m])
                    == Ordering::Equal by {
                    if m > 0 {
                        assert(x.skip(1)[m - 1] == x[m] && y.skip(1)[m - 1] == y[m]);
                    }
                }
            }
            if even(x, y) {
                assert forall|m: int| 0 <= m < rest.len() implies cell_order(
                    #[trigger] x.skip(1)[m],
                    y.skip(1)[m],
                ) == Ordering::Equal by {
                    assert(x[m + 1] == x.skip(1)[m]);
                }
            }
        }
        if even(x, y) {
            assert(cell_order(x[0], y[0]) == Ordering::Equal);
        }
    }
}

/// The cells of a row in the columns to sort by.
pub open spec fn held_in(row: RowView, order_by: Seq<OrderKeyView>) -> Seq<JsonView> {
    Seq::new(order_by.len(), |k: int| held(row, order_by[k].column))
}

/// What a result row shows in the columns to sort by.
pub open spec fn shown_in(g: GroupView, group_by: Seq<Seq<char>>, order_by: Seq<OrderKeyView>) -> Seq<
    JsonView,
> {
    Seq::new(order_by.len(), |k: int| shown(g, group_by, order_by[k].column))
}

/// `p` has each of the places `0..n` once.
pub open spec fn each_once(p: Seq<int>, n: int) -> bool {
    &&& p.len() == n
    &&& forall|i: int| 0 <= i < n ==> 0 <= #[trigger] p[i] < n
    &&& forall|i: int, j: int| 0 <= i < j < n ==> #[trigger] p[i] != #[trigger] p[j]
    &&& forall|x: int| 0 <= x < n ==> p.contains(x)
}

/// `ORDER BY` gives the same rows, each once, so that of any two the earlier one leads by the first key
/// in which they differ, in the direction of that key; and those that differ in none stand as they
/// stood. The result are the places that the rows had.
pub proof fn lemma_order_by(rows: Seq<RowView>, order_by: Seq<OrderKeyView>) -> (p: Seq<int>)
    ensures
        each_once(p, rows.len() as int),
        ordered_rows(rows, order_by).len() == rows.len(),
        forall|i: int| 0 <= i < rows.len() ==> #[trigger] ordered_rows(rows, order_by)[i] == rows[p[i]],
        forall|i: int, j: int|
            0 <= i < j < rows.len() ==> leads(
                held_in(rows[#[trigger] p[i]], order_by),
                held_in(rows[#[trigger] p[j]], order_by),
                order_by,
            ) || (even(
                held_in(rows[p[i]], order_by),
                held_in(rows[p[j]], order_by),
            ) && p[i] < p[j]),
{
    let n = rows.len() as int;
    let keys = row_keys(rows, order_by);
    assert forall|i: int| 0 <= i < n implies #[trigger] keys[i] == held_in(rows[i], order_by) by {
        assert(keys[i] =~= held_in(rows[i], order_by));
    }
    lemma_arranged_by(keys, order_by)
}

/// `ORDER BY` of result rows, in the same way.
pub proof fn lemma_order_groups_by(
    rows: Seq<GroupView>,
    group_by: Seq<Seq<char>>,
    order_by: Seq<OrderKeyView>,
) -> (p: Seq<int>)
    ensures
        each_once(p, rows.len() as int),
        ordered_groups(rows, group_by, order_by).len() == rows.len(),
        forall|i: int|
            0 <= i < rows.len() ==> #[trigger] ordered_groups(rows, group_by, order_by)[i] == rows[p[i]],
        forall|i: int, j: int|
            0 <= i < j < rows.len() ==> leads(
                shown_in(rows[#[trigger] p[i]], group_by, order_by),
                shown_in(rows[#[trigger] p[j]], group_by, order_by),
                order_by,
            ) || (even(
                shown_in(rows[p[i]], group_by, order_by),
                shown_in(rows[p[j]], group_by, order_by),
            ) && p[i] < p[j]),
{
    let n = rows.len() as int;
    let keys = group_keys(rows, group_by, order_by);
    assert forall|i: int| 0 <= i < n implies #[trigger] keys[i] == shown_in(rows[i], group_by, order_by) by {
        assert forall|k: int| 0 <= k < order_by.len() implies keys[i][k] == shown_in(
            rows[i],
            group_by,
            order_by,
        )[k] by {
            lemma_first_place(group_by, order_by[k].column);
        }
        assert(keys[i] =~= shown_in(rows[i], group_by, order_by));
    }
    lemma_arranged_by(keys, order_by)
}

proof fn lemma_arranged_by(keys: Seq<Seq<JsonView>>, order_by: Seq<OrderKeyView>) -> (p: Seq<int>)
    requires
        forall|i: int| 0 <= i < keys.len() ==> (#[trigger] keys[i]).len() == order_by.len(),
    ensures
        p == sort::arrangement(keys.len() as int, ranked(keys, directions(order_by))),
        each_once(p, keys.len() as int),
        forall|i: int, j: int|
            0 <= i < j < keys.len() ==> leads(
                keys[#[trigger] p[i]],
                keys[#[trigger] p[j]],
                order_by,
            ) || (even(keys[p[i]], keys[p[j]]) && p[i] < p[j]),
{
    let n = keys.len() as int;
    let dirs = directions(order_by);
    let le = ranked(keys, dirs);
    assert forall|i: int, j: int| 0 <= i < n && 0 <= j < n implies #[trigger] le(i, j) || le(j, i) by {
        lemma_keys(keys[i], keys[j], keys[i], dirs);
    }
    assert forall|i: int, j: int, k: int|
        0 <= i < n && 0 <= j < n && 0 <= k < n && #[trigger] le(i, j) && #[trigger] le(j, k) implies le(
        i,
        k,
    ) by {
        lemma_keys(keys[i], keys[j], keys[k], dirs);
    }
    sort::lemma_arrangement_exists(n, le);
    let p = sort::arrangement(n, le);
    sort::lemma_places(p, n);
    assert forall|i: int, j: int| 0 <= i < j < n implies #[trigger] p[i] != #[trigger] p[j] by {
        assert(sort::first(le, p[i], p[j]));
    }
    assert forall|i: int, j: int| 0 <= i < j < n implies leads(
        keys[#[trigger] p[i]],
        keys[#[trigger] p[j]],
        order_by,
    ) || (even(keys[p[i]], keys[p[j]]) && p[i] < p[j]) by {
        assert(sort::first(le, p[i], p[j]));
        assert(le(p[i], p[j]));
        lemma_leads(keys[p[i]], keys[p[j]], order_by);
        if even(keys[p[i]], keys[p[j]]) {
            assert(le(p[j], p[i]));
        }
    }
    p
}

proof fn lemma_first_place(s: Seq<Seq<char>>, x: Seq<char>)
    ensures
        first_place(s, x) <= s.len(),
        first_place(s, x) < s.len() <==> s.contains(x),
        s.contains(x) ==> s.index_of_first(x) == Some(first_place(s, x) as int),
    decreases s.len(),
{
    s.index_of_first_ensures(x);
    if s.len() > 0 {
        let rest = s.skip(1);
        lemma_first_place(rest, x);
        rest.index_of_first_ensures(x);
        if s[0] != x {
            if rest.contains(x) {
                let i = rest.index_of(x);
                assert(s[i + 1] == x);
                let f = first_place(rest, x) as int;
                assert(rest[f] == x);
                assert(s[f + 1] == x);
                let g = s.index_of_first(x)->0;
                assert(s[g] == x);
                if g > 0 {
                    assert(rest[g - 1] == x);
                }
            }
            if s.contains(x) {
                let i = s.index_of(x);
                assert(rest[i - 1] == x);
            }
        } else {
            let g = s.index_of_first(x)->0;
            assert(s.contains(x));
        }
    }
}

/// The place of the type of a value among the types.
pub open spec fn type_place(v: JsonView) -> int {
    match v {
        JsonView::Null => 0,
        JsonView::Bool(_) => 1,
        JsonView::Number(_) => 2,
        JsonView::String(_) => 3,
        JsonView::Array(_) => 4,
        JsonView::Object(_) => 5,
    }
}

/// Cells of different types are ordered by their types; null equals null, false comes before true, and
/// numbers are ordered by their exact values.
pub proof fn lemma_cells_by_type(a: JsonView, b: JsonView)
    ensures
        type_place(a) < type_place(b) ==> cell_order(a, b) == Ordering::Less,
        type_place(a) > type_place(b) ==> cell_order(a, b) == Ordering::Greater,
        a is Null && b is Null ==> cell_order(a, b) == Ordering::Equal,
        a matches JsonView::Bool(x) ==> b matches JsonView::Bool(y) ==> cell_order(a, b) == (if x == y {
            Ordering::Equal
        } else if !x {
            Ordering::Less
        } else {
            Ordering::Greater
        }),
        a is Array && b is Array ==> cell_order(a, b) == Ordering::Equal,
        a is Object && b is Object ==> cell_order(a, b) == Ordering::Equal,
        a matches JsonView::Number(m) ==> b matches JsonView::Number(n) ==> {
            let (x, y) = (crate::conditions::exact_value(m), crate::conditions::exact_value(n));
            x is Some && y is Some ==> {
                &&& cell_order(a, b) == Ordering::Less <==> x->0 < y->0
                &&& cell_order(a, b) == Ordering::Greater <==> x->0 > y->0
                &&& cell_order(a, b) == Ordering::Equal <==> x->0 == y->0
            }
        },
{
    if let (JsonView::Number(m), JsonView::Number(n)) = (a, b) {
        query::lemma_num_order(m, n);
        query::lemma_num_order(n, m);
    }
}

/// A character comes before another.
pub open spec fn lower(a: char, b: char) -> bool {
    (a as u32) < (b as u32)
}

/// Strings are ordered by the first character in which they differ, and one that another starts with
/// comes before it.
pub proof fn lemma_cells_of_strings(start: Seq<char>, a: Seq<char>, b: Seq<char>)
    requires
        a.len() > 0 || b.len() > 0,
        a.len() == 0 || b.len() == 0 || a[0] != b[0],
    ensures
        cell_order(JsonView::String(start + a), JsonView::String(start + b)) == (if b.len() > 0 && (a.len()
            == 0 || lower(a[0], b[0])) {
            Ordering::Less
        } else {
            Ordering::Greater
        }),
        cell_order(JsonView::String(start + a), JsonView::String(start + a)) == Ordering::Equal,
{
    crate::conditions::lemma_precedes(start, a, b);
    if start + a == start + b {
        assert(a =~= (start + a).skip(start.len() + 0int));
        assert(b =~= (start + b).skip(start.len() + 0int));
        if a.len() > 0 {
            assert(a[0] == b[0]);
        }
    }
}

/// `LIMIT` keeps the first rows, as many as it says, or all where there are fewer.
pub proof fn lemma_limit<T>(rows: Seq<T>, limit: Option<usize>)
    ensures
        limit is None ==> limited(rows, limit) == rows,
        limit matches Some(n) ==> limited(rows, limit).len() == (if rows.len() < n {
            rows.len() as int
        } else {
            n as int
        }),
        forall|i: int| 0 <= i < limited(rows, limit).len() ==> #[trigger] limited(rows, limit)[i] == rows[i],
{
}

/// The answer of a query is its result rows, sorted as it asks and then as many of the first ones as its
/// limit lets. The result are the places that the rows had.
pub proof fn lemma_shaped(q: query::QueryView, rows: Seq<GroupView>) -> (p: Seq<int>)
    ensures
        each_once(p, rows.len() as int),
        q.shaped(rows).len() == (match q.limit {
            Some(n) => if n < rows.len() {
                n as int
            } else {
                rows.len() as int
            },
            None => rows.len() as int,
        }),
        forall|i: int| 0 <= i < q.shaped(rows).len() ==> #[trigger] q.shaped(rows)[i] == rows[p[i]],
        forall|i: int, j: int|
            0 <= i < j < rows.len() ==> leads(
                shown_in(rows[#[trigger] p[i]], q.group_by, q.order_by),
                shown_in(rows[#[trigger] p[j]], q.group_by, q.order_by),
                q.order_by,
            ) || (even(
                shown_in(rows[p[i]], q.group_by, q.order_by),
                shown_in(rows[p[j]], q.group_by, q.order_by),
            ) && p[i] < p[j]),
{
    let p = lemma_order_groups_by(rows, q.group_by, q.order_by);
    lemma_limit(ordered_groups(rows, q.group_by, q.order_by), q.limit);
    p
}

} // verus!
