//! Inner equi-joins of two sequences of rows.

use crate::dataset::{Row, RowView};
use crate::digest;
use crate::digest::score;
use crate::json::{CellView, Json};
use crate::table;
use crate::table::{Duplicate, Table};
use vstd::prelude::*;
use vstd::seq_lib::*;
use vstd::string::*;
use vstd::utf8::*;

verus! {

/// The columns of an equi-join: rows go together where the left one's cell in `left` is the right
/// one's cell in `right`.
#[derive(Debug, Clone, PartialEq, Eq)]
pub struct JoinKeys {
    pub left: String,
    pub right: String,
}

impl JoinKeys {
    /// A join by the column of this name on both sides.
    pub fn on(column: &str) -> (r: JoinKeys)
        ensures
            r.left@ == column@,
            r.right@ == column@,
    {
        JoinKeys { left: column.to_owned(), right: column.to_owned() }
    }

    /// A join by columns of different names.
    pub fn new(left: &str, right: &str) -> (r: JoinKeys)
        ensures
            r.left@ == left@,
            r.right@ == right@,
    {
        JoinKeys { left: left.to_owned(), right: right.to_owned() }
    }
}

/// The key of a row in a column: the content of a string, the text of another value, none where the
/// row has no such column or null in it.
pub open spec fn join_key(row: RowView, column: Seq<char>) -> Option<Seq<char>> {
    if row.dom().contains(column) && !(row[column].value is Null) {
        Some(row[column].as_key())
    } else {
        None
    }
}

/// The key of a row in a column.
pub fn key_str(row: &Row, column: &str) -> (r: Option<String>)
    ensures
        r.deep_view() == join_key(row.contents(), column@),
{
    match row.get(&column.to_owned()) {
        Some(cell) => match &cell.value {
            Json::Null => None,
            _ => Some(cell.key()),
        },
        None => None,
    }
}

/// `name` with `right.` before it `n` times.
pub open spec fn prefixed(name: Seq<char>, n: nat) -> Seq<char>
    decreases n,
{
    if n == 0 {
        name
    } else {
        "right."@ + prefixed(name, (n - 1) as nat)
    }
}

/// `n` is the least number of prefixes with which a name is free.
pub open spec fn frees(taken: Set<Seq<char>>, name: Seq<char>, n: nat) -> bool {
    !taken.contains(prefixed(name, n)) && forall|m: nat| m < n ==> taken.contains(#[trigger] prefixed(name, m))
}

/// The name that a column gets where some names are taken: its own, or one with prefixes.
pub open spec fn free_name(taken: Set<Seq<char>>, name: Seq<char>) -> Seq<char> {
    prefixed(name, choose|n: nat| frees(taken, name, n))
}

/// When a column of the right row is placed: first those that the left row has too and whose prefixed
/// name it does not have, then those that it does not have, then the others.
pub open spec fn turn(left: RowView, name: Seq<char>) -> int {
    if !left.dom().contains(name) {
        1
    } else if !left.dom().contains("right."@ + name) {
        0
    } else {
        2
    }
}

/// A row with those of the first `n` columns of the right row added whose turn it is, each under a name
/// that is free.
pub open spec fn merged_part(
    base: RowView,
    left: RowView,
    right: RowView,
    names: Seq<Seq<char>>,
    n: nat,
    now: int,
) -> RowView
    decreases n,
{
    if n == 0 {
        base
    } else {
        let before = merged_part(base, left, right, names, (n - 1) as nat, now);
        let name = names[n - 1];
        if turn(left, name) == now {
            before.insert(free_name(before.dom(), name), right[name])
        } else {
            before
        }
    }
}

/// A row with all columns of the right row added whose turn it is.
pub open spec fn merged_turn(base: RowView, left: RowView, right: RowView, now: int) -> RowView {
    let names = table::listing::<String>(right.dom());
    merged_part(base, left, right, names, names.len(), now)
}

/// Two rows as one: all columns of the left one, and those of the right one, each under its own name
/// or, where that is taken, with `right.` before it as often as it takes.
pub open spec fn merged_row(left: RowView, right: RowView) -> RowView {
    merged_turn(
        merged_turn(merged_turn(left, left, right, 0), left, right, 1),
        left,
        right,
        2,
    )
}

/// The name starts with `right.`.
pub open spec fn is_prefixed(name: Seq<char>) -> bool {
    exists|rest: Seq<char>| name == "right."@ + rest
}

/// No value of two rows is lost where `out` is the two as one: the columns of the left row are as they
/// were, a column that only the right row has keeps its name unless that starts with `right.`, one that
/// both have stands with `right.` before it unless the left row has that too, and every value of the
/// right row stands somewhere.
pub open spec fn keeps_all(left: RowView, right: RowView, out: RowView) -> bool {
    &&& forall|k: Seq<char>| #[trigger]
        left.dom().contains(k) ==> out.dom().contains(k) && out[k] == left[k]
    &&& forall|k: Seq<char>| #[trigger]
        right.dom().contains(k) && !left.dom().contains(k) && !is_prefixed(k) ==> out.dom().contains(k)
            && out[k] == right[k]
    &&& forall|k: Seq<char>| #[trigger]
        right.dom().contains(k) && left.dom().contains(k) && !left.dom().contains("right."@ + k)
            ==> out.dom().contains("right."@ + k) && out["right."@ + k] == right[k]
    &&& forall|k: Seq<char>| #[trigger]
        right.dom().contains(k) ==> exists|c: Seq<char>|
            out.dom().contains(c) && #[trigger] out[c] == right[k]
}

proof fn lemma_free_unique(taken: Set<Seq<char>>, name: Seq<char>, n: nat)
    requires
        frees(taken, name, n),
    ensures
        free_name(taken, name) == prefixed(name, n),
{
    let m = choose|m: nat| frees(taken, name, m);
    if m < n {
        assert(taken.contains(prefixed(name, m)));
    }
    if n < m {
        assert(taken.contains(prefixed(name, n)));
    }
}

/// The name that a column gets in a row.
fn find_free(row: &Row, name: &String) -> (r: String)
    ensures
        r@ == free_name(row.contents().dom(), name@),
        !row.contents().dom().contains(r@),
{
    let count: usize = row.len();
    let ghost taken = row.contents().dom();
    let ghost keys = row.keys();
    let ghost longest = lemma_longest(keys);
    let mut current: String = name.clone();
    let ghost mut n: nat = 0;
    loop
        invariant
            current@ == prefixed(name@, n),
            taken == row.contents().dom(),
            keys == row.keys(),
            table::lists::<String>(keys, taken),
            forall|i: int| 0 <= i < keys.len() ==> (#[trigger] keys[i]).len() <= longest,
            forall|m: nat| m < n ==> taken.contains(#[trigger] prefixed(name@, m)),
            current@.len() >= n,
        decreases longest + 1 - n,
    {
        if row.get(&current).is_none() {
            proof {
                lemma_free_unique(taken, name@, n);
            }
            return current;
        }
        proof {
            assert(keys.contains(current@));
            let i = choose|i: int| 0 <= i < keys.len() && keys[i] == current@;
            assert(keys[i].len() <= longest);
            reveal_strlit("right.");
        }
        let mut next: String = "right.".to_owned();
        next.append(current.as_str());
        current = next;
        proof {
            n = n + 1;
        }
    }
}

proof fn lemma_longest(s: Seq<Seq<char>>) -> (n: nat)
    ensures
        forall|i: int| 0 <= i < s.len() ==> (#[trigger] s[i]).len() <= n,
    decreases s.len(),
{
    if s.len() == 0 {
        0
    } else {
        let rest = lemma_longest(s.drop_last());
        assert forall|i: int| 0 <= i < s.len() implies (#[trigger] s[i]).len() <= rest + s.last().len() by {
            if i < s.len() - 1 {
                assert(s.drop_last()[i] == s[i]);
            }
        }
        rest + s.last().len()
    }
}

/// Whether a column of the right row is placed now.
fn its_turn(left: &Row, name: &String, now: u8) -> (r: bool)
    ensures
        r == (turn(left.contents(), name@) == now),
{
    if left.get(name).is_none() {
        return now == 1;
    }
    let mut prefixed_name: String = "right.".to_owned();
    prefixed_name.append(name.as_str());
    if left.get(&prefixed_name).is_none() {
        now == 0
    } else {
        now == 2
    }
}

/// Adds the columns of the right row whose turn it is.
fn place_columns(out: &mut Row, left: &Row, right: &Row, now: u8)
    ensures
        final(out).contents() == merged_turn(
            old(out).contents(),
            left.contents(),
            right.contents(),
            now as int,
        ),
{
    let n: usize = right.len();
    let ghost names = right.keys();
    let ghost base = out.contents();
    let mut i: usize = 0;
    while i < n
        invariant
            i <= n == names.len(),
            names == right.keys(),
            forall|j: int|
                0 <= j < n ==> right.contents()[#[trigger] right.keys()[j]] == right.values()[j],
            out.contents() == merged_part(
                base,
                left.contents(),
                right.contents(),
                names,
                i as nat,
                now as int,
            ),
        decreases n - i,
    {
        proof {
            assert(right.contents()[right.keys()[i as int]] == right.values()[i as int]);
        }
        if its_turn(left, right.key_at(i), now) {
            let name: String = find_free(out, right.key_at(i));
            out.insert(name, right.value_at(i).duplicate());
        }
        i = i + 1;
    }
}

/// Two rows as one.
pub fn merge_rows(left: &Row, right: &Row) -> (r: Row)
    ensures
        r.contents() == merged_row(left.contents(), right.contents()),
        keeps_all(left.contents(), right.contents(), r.contents()),
{
    let mut out: Row = left.duplicate();
    place_columns(&mut out, left, right, 0);
    place_columns(&mut out, left, right, 1);
    place_columns(&mut out, left, right, 2);
    let _left: usize = left.len();
    let _right: usize = right.len();
    proof {
        table::lemma_lists_finite::<String>(left.keys(), left.contents().dom());
        lemma_merge_keeps_all(left.contents(), right.contents());
    }
    out
}

/// Placing columns changes none that is there, and loses none of the right row.
proof fn lemma_part_keeps(
    base: RowView,
    left: RowView,
    right: RowView,
    names: Seq<Seq<char>>,
    n: nat,
    now: int,
)
    requires
        base.dom().finite(),
        n <= names.len(),
    ensures
        merged_part(base, left, right, names, n, now).dom().finite(),
        forall|k: Seq<char>| #[trigger]
            base.dom().contains(k) ==> merged_part(base, left, right, names, n, now).dom().contains(k)
                && merged_part(base, left, right, names, n, now)[k] == base[k],
        forall|i: int|
            0 <= i < n && turn(left, #[trigger] names[i]) == now ==> stands_in(
                merged_part(base, left, right, names, n, now),
                right[names[i]],
            ),
    decreases n,
{
    if n > 0 {
        let m = (n - 1) as nat;
        lemma_part_keeps(base, left, right, names, m, now);
        let before = merged_part(base, left, right, names, m, now);
        let name = names[m as int];
        lemma_some_free(before.dom(), name);
        let free = free_name(before.dom(), name);
        let after = merged_part(base, left, right, names, n, now);
        if turn(left, name) == now {
            assert(after == before.insert(free, right[name]));
            assert(after.dom().contains(free) && after[free] == right[name]);
            assert forall|i: int| 0 <= i < n && turn(left, #[trigger] names[i]) == now implies stands_in(
                after,
                right[names[i]],
            ) by {
                if i < m {
                    assert(stands_in(before, right[names[i]]));
                    let k = choose|k: Seq<char>|
                        before.dom().contains(k) && #[trigger] before[k] == right[names[i]];
                    assert(after.dom().contains(k) && after[k] == right[names[i]]);
                }
            }
        }
    }
}

/// The value stands in some column of the row.
pub open spec fn stands_in(row: RowView, value: CellView) -> bool {
    exists|c: Seq<char>| row.dom().contains(c) && #[trigger] row[c] == value
}

/// Columns that both rows have, placed first, stand with one prefix.
proof fn lemma_first_turn(left: RowView, right: RowView, names: Seq<Seq<char>>, n: nat)
    requires
        left.dom().finite(),
        n <= names.len(),
        names.no_duplicates(),
    ensures
        forall|i: int|
            0 <= i < n && turn(left, #[trigger] names[i]) == 0 ==> ({
                let out = merged_part(left, left, right, names, n, 0);
                out.dom().contains("right."@ + names[i]) && out["right."@ + names[i]] == right[names[i]]
            }),
        forall|k: Seq<char>| #[trigger]
            merged_part(left, left, right, names, n, 0).dom().contains(k) ==> left.dom().contains(k)
                || exists|j: int| 0 <= j < n && k == "right."@ + #[trigger] names[j],
    decreases n,
{
    reveal_strlit("right.");
    if n > 0 {
        let m = (n - 1) as nat;
        lemma_first_turn(left, right, names, m);
        lemma_part_keeps(left, left, right, names, m, 0);
        let before = merged_part(left, left, right, names, m, 0);
        let after = merged_part(left, left, right, names, n, 0);
        let name = names[m as int];
        let one = "right."@ + name;
        if turn(left, name) == 0 {
            assert(prefixed(name, 0) == name);
            assert(prefixed(name, 1) == one);
            assert(before.dom().contains(name));
            assert(!before.dom().contains(one)) by {
                if before.dom().contains(one) {
                    let j = choose|j: int| 0 <= j < m && one == "right."@ + #[trigger] names[j];
                    assert(one.skip(6) =~= name);
                    assert(("right."@ + names[j]).skip(6) =~= names[j]);
                }
            }
            assert(frees(before.dom(), name, 1)) by {
                assert forall|k: nat| k < 1 implies before.dom().contains(#[trigger] prefixed(name, k)) by {
                    assert(k == 0);
                }
            }
            lemma_free_unique(before.dom(), name, 1);
            assert(after == before.insert(one, right[name]));
        }
        assert forall|i: int| 0 <= i < n && turn(left, #[trigger] names[i]) == 0 implies ({
            after.dom().contains("right."@ + names[i]) && after["right."@ + names[i]] == right[names[i]]
        }) by {
            if i < m {
                assert(("right."@ + names[i]).skip(6) =~= names[i]);
                assert(one.skip(6) =~= name);
                assert(names[i] != name);
            }
        }
        assert forall|k: Seq<char>| #[trigger] after.dom().contains(k) implies left.dom().contains(k)
            || exists|j: int| 0 <= j < n && k == "right."@ + #[trigger] names[j] by {
            if before.dom().contains(k) && !left.dom().contains(k) {
                let j = choose|j: int| 0 <= j < m && k == "right."@ + #[trigger] names[j];
                assert(0 <= j < n && k == "right."@ + names[j]);
            } else if !before.dom().contains(k) {
                assert(k == "right."@ + names[m as int]);
            }
        }
    }
}

/// Columns that only the right row has, placed next, keep their names unless these are prefixed.
proof fn lemma_next_turn(base: RowView, left: RowView, right: RowView, names: Seq<Seq<char>>, n: nat)
    requires
        base.dom().finite(),
        n <= names.len(),
        names.no_duplicates(),
        forall|k: Seq<char>| #[trigger]
            base.dom().contains(k) ==> left.dom().contains(k) || is_prefixed(k),
    ensures
        forall|i: int|
            0 <= i < n && turn(left, #[trigger] names[i]) == 1 && !is_prefixed(names[i]) ==> ({
                let out = merged_part(base, left, right, names, n, 1);
                out.dom().contains(names[i]) && out[names[i]] == right[names[i]]
            }),
        forall|k: Seq<char>| #[trigger]
            merged_part(base, left, right, names, n, 1).dom().contains(k) ==> left.dom().contains(k)
                || is_prefixed(k) || exists|j: int| 0 <= j < n && k == #[trigger] names[j],
    decreases n,
{
    if n > 0 {
        let m = (n - 1) as nat;
        lemma_next_turn(base, left, right, names, m);
        lemma_part_keeps(base, left, right, names, m, 1);
        let before = merged_part(base, left, right, names, m, 1);
        let after = merged_part(base, left, right, names, n, 1);
        let name = names[m as int];
        if turn(left, name) == 1 {
            lemma_some_free(before.dom(), name);
            lemma_free_from(before.dom(), name, 0, before.dom());
            let k = choose|k: nat| frees(before.dom(), name, k);
            lemma_free_unique(before.dom(), name, k);
            assert(prefixed(name, 0) == name);
            if k > 0 {
                assert(is_prefixed(prefixed(name, k))) by {
                    assert(prefixed(name, k) == "right."@ + prefixed(name, (k - 1) as nat));
                }
                assert(before.dom().contains(prefixed(name, 0)));
            }
            assert(after == before.insert(prefixed(name, k), right[name]));
        }
        assert forall|i: int|
            0 <= i < n && turn(left, #[trigger] names[i]) == 1 && !is_prefixed(names[i]) implies ({
            after.dom().contains(names[i]) && after[names[i]] == right[names[i]]
        }) by {
            if i == m {
                if before.dom().contains(name) {
                    let j = choose|j: int| 0 <= j < m && name == #[trigger] names[j];
                    assert(names[j] == names[m as int]);
                }
            } else {
                assert(before.dom().contains(names[i]));
            }
        }
        assert forall|k: Seq<char>| #[trigger] after.dom().contains(k) implies left.dom().contains(k)
            || is_prefixed(k) || exists|j: int| 0 <= j < n && k == #[trigger] names[j] by {
            if before.dom().contains(k) && !left.dom().contains(k) && !is_prefixed(k) {
                let j = choose|j: int| 0 <= j < m && k == #[trigger] names[j];
                assert(0 <= j < n && k == names[j]);
            } else if !before.dom().contains(k) && !is_prefixed(k) {
                assert(k == names[m as int]);
            }
        }
    }
}

/// No value is lost where rows are merged.
pub proof fn lemma_merge_keeps_all(left: RowView, right: RowView)
    requires
        left.dom().finite(),
        table::lists::<String>(table::listing::<String>(right.dom()), right.dom()),
    ensures
        keeps_all(left, right, merged_row(left, right)),
{
    let names = table::listing::<String>(right.dom());
    let n = names.len();
    assert(names.no_duplicates()) by {
        assert forall|i: int, j: int| 0 <= i < j < names.len() implies names[i] != names[j] by {
            table::lemma_place::<String>(names, i);
            table::lemma_place::<String>(names, j);
        }
    }
    let first = merged_turn(left, left, right, 0);
    let next = merged_turn(first, left, right, 1);
    let out = merged_row(left, right);
    lemma_part_keeps(left, left, right, names, n, 0);
    lemma_part_keeps(first, left, right, names, n, 1);
    lemma_part_keeps(next, left, right, names, n, 2);
    lemma_first_turn(left, right, names, n);
    assert forall|k: Seq<char>| #[trigger] first.dom().contains(k) implies left.dom().contains(k)
        || is_prefixed(k) by {
        if !left.dom().contains(k) {
            let j = choose|j: int| 0 <= j < n && k == "right."@ + #[trigger] names[j];
            assert(k == "right."@ + names[j]);
        }
    }
    lemma_next_turn(first, left, right, names, n);
    assert forall|k: Seq<char>| #[trigger] left.dom().contains(k) implies out.dom().contains(k) && out[k]
        == left[k] by {
        assert(first.dom().contains(k));
        assert(next.dom().contains(k));
    }
    assert forall|k: Seq<char>| #[trigger]
        right.dom().contains(k) && !left.dom().contains(k) && !is_prefixed(k) implies out.dom().contains(k)
        && out[k] == right[k] by {
        assert(names.contains(k));
        let i = choose|i: int| 0 <= i < names.len() && names[i] == k;
        assert(turn(left, names[i]) == 1);
        assert(next.dom().contains(k));
    }
    assert forall|k: Seq<char>| #[trigger]
        right.dom().contains(k) && left.dom().contains(k) && !left.dom().contains(
            "right."@ + k,
        ) implies out.dom().contains("right."@ + k) && out["right."@ + k] == right[k] by {
        assert(names.contains(k));
        let i = choose|i: int| 0 <= i < names.len() && names[i] == k;
        assert(turn(left, names[i]) == 0);
        assert(first.dom().contains("right."@ + k));
        assert(next.dom().contains("right."@ + k));
    }
    assert forall|k: Seq<char>| #[trigger] right.dom().contains(k) implies exists|c: Seq<char>|
        out.dom().contains(c) && #[trigger] out[c] == right[k] by {
        assert(names.contains(k));
        let i = choose|i: int| 0 <= i < names.len() && names[i] == k;
        let now = turn(left, names[i]);
        if now == 0 {
            assert(stands_in(first, right[k]));
            let c = choose|c: Seq<char>| first.dom().contains(c) && #[trigger] first[c] == right[k];
            assert(next.dom().contains(c));
            assert(out.dom().contains(c) && out[c] == right[k]);
        } else if now == 1 {
            assert(stands_in(next, right[k]));
            let c = choose|c: Seq<char>| next.dom().contains(c) && #[trigger] next[c] == right[k];
            assert(out.dom().contains(c) && out[c] == right[k]);
        } else {
            assert(stands_in(out, right[k]));
        }
    }
}

proof fn lemma_prefix_length(name: Seq<char>, n: nat)
    ensures
        prefixed(name, n).len() == name.len() + 6 * n,
    decreases n,
{
    reveal_strlit("right.");
    if n > 0 {
        lemma_prefix_length(name, (n - 1) as nat);
    }
}

/// Some name is free.
pub(crate) proof fn lemma_some_free(taken: Set<Seq<char>>, name: Seq<char>)
    requires
        taken.finite(),
    ensures
        !taken.contains(free_name(taken, name)),
{
    lemma_free_from(taken, name, 0, taken);
    let n = choose|n: nat| frees(taken, name, n);
    assert(frees(taken, name, n));
}

/// Of the names with more and more prefixes one is free: `left` are the taken ones that were not
/// met yet.
proof fn lemma_free_from(taken: Set<Seq<char>>, name: Seq<char>, n: nat, left: Set<Seq<char>>)
    requires
        taken.finite(),
        left.finite(),
        forall|m: nat| m < n ==> taken.contains(#[trigger] prefixed(name, m)),
        forall|m: nat| m >= n && taken.contains(#[trigger] prefixed(name, m)) ==> left.contains(
            prefixed(name, m),
        ),
    ensures
        exists|k: nat| frees(taken, name, k),
    decreases left.len(),
{
    let here = prefixed(name, n);
    if taken.contains(here) {
        let rest = left.remove(here);
        assert forall|m: nat| m >= n + 1 && taken.contains(#[trigger] prefixed(name, m)) implies rest.contains(
            prefixed(name, m),
        ) by {
            lemma_prefix_length(name, n);
            lemma_prefix_length(name, m);
        }
        lemma_free_from(taken, name, n + 1, rest);
    } else {
        assert(frees(taken, name, n));
    }
}


/// Two rows go together.
pub open spec fn pairs(l: RowView, r: RowView, left: Seq<char>, right: Seq<char>) -> bool {
    join_key(l, left) is Some && join_key(l, left) == join_key(r, right)
}

/// A left row merged with each right row that it goes together with, in their order.
pub open spec fn matches_of(l: RowView, rows: Seq<RowView>, left: Seq<char>, right: Seq<char>) -> Seq<
    RowView,
>
    decreases rows.len(),
{
    if rows.len() == 0 {
        Seq::empty()
    } else if pairs(l, rows.last(), left, right) {
        matches_of(l, rows.drop_last(), left, right).push(merged_row(l, rows.last()))
    } else {
        matches_of(l, rows.drop_last(), left, right)
    }
}

/// The join: for each left row in order, what it gives with the right rows in order.
pub open spec fn joined(ls: Seq<RowView>, rs: Seq<RowView>, left: Seq<char>, right: Seq<char>) -> Seq<
    RowView,
>
    decreases ls.len(),
{
    if ls.len() == 0 {
        Seq::empty()
    } else {
        joined(ls.drop_last(), rs, left, right) + matches_of(ls.last(), rs, left, right)
    }
}

/// The places of the rows, among the first `n`, that have a key.
spec fn places_of(rows: Seq<RowView>, column: Seq<char>, key: Seq<char>, n: nat) -> Seq<usize>
    decreases n,
{
    if n == 0 {
        Seq::empty()
    } else {
        let before = places_of(rows, column, key, (n - 1) as nat);
        if join_key(rows[n - 1], column) == Some(key) {
            before.push((n - 1) as usize)
        } else {
            before
        }
    }
}

proof fn lemma_places_of(rows: Seq<RowView>, column: Seq<char>, key: Seq<char>, n: nat)
    requires
        n <= rows.len() <= usize::MAX,
    ensures
        forall|i: int|
            0 <= i < places_of(rows, column, key, n).len() ==> (#[trigger] places_of(
                rows,
                column,
                key,
                n,
            )[i]) < n,
    decreases n,
{
    if n > 0 {
        lemma_places_of(rows, column, key, (n - 1) as nat);
        let before = places_of(rows, column, key, (n - 1) as nat);
        let now = places_of(rows, column, key, n);
        assert forall|i: int| 0 <= i < now.len() implies (#[trigger] now[i]) < n by {
            if i < before.len() {
                assert(now[i] == before[i]);
            }
        }
    }
}

proof fn lemma_matches_at(l: RowView, rows: Seq<RowView>, left: Seq<char>, right: Seq<char>, n: nat)
    requires
        n <= rows.len() <= usize::MAX,
        join_key(l, left) is Some,
    ensures
        ({
            let ps = places_of(rows, right, join_key(l, left)->0, n);
            matches_of(l, rows.take(n as int), left, right) == Seq::new(
                ps.len(),
                |i: int| merged_row(l, rows[ps[i] as int]),
            )
        }),
    decreases n,
{
    let key = join_key(l, left)->0;
    let ps = places_of(rows, right, key, n);
    if n > 0 {
        let m = (n - 1) as nat;
        lemma_matches_at(l, rows, left, right, m);
        assert(rows.take(n as int).drop_last() =~= rows.take(m as int));
        assert(matches_of(l, rows.take(n as int), left, right) =~= Seq::new(
            ps.len(),
            |i: int| merged_row(l, rows[ps[i] as int]),
        ));
    } else {
        assert(rows.take(0) =~= Seq::<RowView>::empty());
        assert(matches_of(l, rows.take(0), left, right) =~= Seq::new(
            ps.len(),
            |i: int| merged_row(l, rows[ps[i] as int]),
        ));
    }
}

/// The inner equi-join of two sequences of rows.
pub fn hash_join(left: &[Row], right: &[Row], keys: &JoinKeys) -> (r: Vec<Row>)
    ensures
        r.deep_view() == joined(left.deep_view(), right.deep_view(), keys.left@, keys.right@),
{
    let ghost ls = left.deep_view();
    let ghost rs = right.deep_view();
    let mut index: Table<String, Vec<usize>> = Table::new();
    let mut i: usize = 0;
    while i < right.len()
        invariant
            i <= right@.len(),
            rs == right.deep_view(),
            forall|k: Seq<char>|
                if (#[trigger] places_of(rs, keys.right@, k, i as nat)).len() == 0 {
                    !index.contents().dom().contains(k)
                } else {
                    index.contents().dom().contains(k) && index.contents()[k] == places_of(
                        rs,
                        keys.right@,
                        k,
                        i as nat,
                    )
                },
        decreases right@.len() - i,
    {
        let ghost was = index.contents();
        if let Some(key) = key_str(&right[i], keys.right.as_str()) {
            let ghost k = key@;
            proof {
                let p = places_of(rs, keys.right@, k, i as nat);
                assert(p.len() == 0 ==> !was.dom().contains(k));
            }
            match index.position(&key) {
                Some(at) => {
                    let mut places: Vec<usize> = index.exchange(at, Vec::new());
                    let ghost before = places.deep_view();
                    places.push(i);
                    let ghost now = places.deep_view();
                    proof {
                        assert(now =~= before.push(i));
                    }
                    let _unused: Vec<usize> = index.exchange(at, places);
                    proof {
                        assert(index.contents() =~= was.insert(k, now));
                    }
                },
                None => {
                    let mut places: Vec<usize> = Vec::new();
                    places.push(i);
                    proof {
                        assert(places.deep_view() =~= Seq::<usize>::empty().push(i));
                        assert(places_of(rs, keys.right@, k, i as nat) =~= Seq::<usize>::empty());
                    }
                    index.insert(key, places);
                },
            }
            proof {
                assert forall|x: Seq<char>|
                    if (#[trigger] places_of(rs, keys.right@, x, (i + 1) as nat)).len() == 0 {
                        !index.contents().dom().contains(x)
                    } else {
                        index.contents().dom().contains(x) && index.contents()[x] == places_of(
                            rs,
                            keys.right@,
                            x,
                            (i + 1) as nat,
                        )
                    } by {
                    let p = places_of(rs, keys.right@, x, i as nat);
                    assert(p.len() == 0 ==> !was.dom().contains(x));
                }
            }
        } else {
            proof {
                assert forall|x: Seq<char>|
                    if (#[trigger] places_of(rs, keys.right@, x, (i + 1) as nat)).len() == 0 {
                        !index.contents().dom().contains(x)
                    } else {
                        index.contents().dom().contains(x) && index.contents()[x] == places_of(
                            rs,
                            keys.right@,
                            x,
                            (i + 1) as nat,
                        )
                    } by {
                    let p = places_of(rs, keys.right@, x, i as nat);
                    assert(p.len() == 0 ==> !was.dom().contains(x));
                }
            }
        }
        i = i + 1;
    }
    let mut out: Vec<Row> = Vec::new();
    let mut j: usize = 0;
    proof {
        assert(ls.take(0) =~= Seq::<RowView>::empty());
        assert(out.deep_view() =~= Seq::<RowView>::empty());
    }
    while j < left.len()
        invariant
            j <= left@.len(),
            ls == left.deep_view(),
            rs == right.deep_view(),
            rs.len() <= usize::MAX,
            forall|k: Seq<char>|
                if (#[trigger] places_of(rs, keys.right@, k, rs.len())).len() == 0 {
                    !index.contents().dom().contains(k)
                } else {
                    index.contents().dom().contains(k) && index.contents()[k] == places_of(
                        rs,
                        keys.right@,
                        k,
                        rs.len(),
                    )
                },
            out.deep_view() == joined(ls.take(j as int), rs, keys.left@, keys.right@),
        decreases left@.len() - j,
    {
        let l: &Row = &left[j];
        let ghost before = out.deep_view();
        let ghost found = matches_of(l.contents(), rs, keys.left@, keys.right@);
        proof {
            assert(ls.take(j + 1).drop_last() =~= ls.take(j as int));
            assert(ls.take(j + 1).last() == l.contents());
            assert(rs.take(rs.len() as int) =~= rs);
        }
        match key_str(l, keys.left.as_str()) {
            Some(key) => {
                let ghost k = key@;
                proof {
                    lemma_matches_at(l.contents(), rs, keys.left@, keys.right@, rs.len());
                    lemma_places_of(rs, keys.right@, k, rs.len());
                    let p = places_of(rs, keys.right@, k, rs.len());
                    assert(p.len() == 0 ==> !index.contents().dom().contains(k));
                }
                match index.get(&key) {
                    Some(places) => {
                        let mut m: usize = 0;
                        proof {
                            assert(before + found.take(0) =~= before);
                            let ps = places_of(rs, keys.right@, k, rs.len());
                            assert(places.deep_view() == ps);
                            assert forall|x: int| 0 <= x < places@.len() implies (#[trigger] places@[x])
                                < rs.len() && found[x] == merged_row(
                                l.contents(),
                                rs[places@[x] as int],
                            ) by {
                                assert(places.deep_view()[x] == places@[x]);
                                assert(ps[x] < rs.len());
                            }
                        }
                        while m < places.len()
                            invariant
                                m <= places@.len() == found.len(),
                                rs == right.deep_view(),
                                forall|x: int|
                                    0 <= x < places@.len() ==> (#[trigger] places@[x]) < rs.len()
                                        && found[x] == merged_row(l.contents(), rs[places@[x] as int]),
                                out.deep_view() == before + found.take(m as int),
                            decreases places@.len() - m,
                        {
                            let at: usize = places[m];
                            let row: Row = merge_rows(l, &right[at]);
                            let ghost was = out.deep_view();
                            out.push(row);
                            proof {
                                assert(out.deep_view() =~= was.push(row.contents()));
                                assert(found.take(m + 1) =~= found.take(m as int).push(found[m as int]));
                                assert(out.deep_view() =~= before + found.take(m + 1));
                            }
                            m = m + 1;
                        }
                        proof {
                            assert(found.take(m as int) =~= found);
                        }
                    },
                    None => {
                        proof {
                            assert(found =~= Seq::<RowView>::empty());
                            assert(before + found =~= before);
                        }
                    },
                }
            },
            None => {
                proof {
                    lemma_no_key(l.contents(), rs, keys.left@, keys.right@);
                    assert(before + found =~= before);
                }
            },
        }
        j = j + 1;
    }
    proof {
        assert(ls.take(ls.len() as int) =~= ls);
    }
    out
}

/// A row without a key goes together with none.
proof fn lemma_no_key(l: RowView, rows: Seq<RowView>, left: Seq<char>, right: Seq<char>)
    requires
        join_key(l, left) is None,
    ensures
        matches_of(l, rows, left, right) == Seq::<RowView>::empty(),
    decreases rows.len(),
{
    if rows.len() > 0 {
        lemma_no_key(l, rows.drop_last(), left, right);
    }
}


/// The bucket of a key among `n`.
pub open spec fn bucket_of(key: Seq<char>, n: nat) -> int {
    (digest::score_of(encode_utf8(key)) % n) as int
}

/// A row belongs to a bucket.
pub open spec fn in_bucket(row: RowView, column: Seq<char>, n: nat, b: int) -> bool {
    match join_key(row, column) {
        Some(key) => bucket_of(key, n) == b,
        None => false,
    }
}

/// The rows of a bucket, in their order.
pub open spec fn bucket(rows: Seq<RowView>, column: Seq<char>, n: nat, b: int) -> Seq<RowView>
    decreases rows.len(),
{
    if rows.len() == 0 {
        Seq::empty()
    } else if in_bucket(rows.last(), column, n, b) {
        bucket(rows.drop_last(), column, n, b).push(rows.last())
    } else {
        bucket(rows.drop_last(), column, n, b)
    }
}

/// At least one.
pub open spec fn at_least_one(n: usize) -> nat {
    if n == 0 {
        1
    } else {
        n as nat
    }
}

/// The rows that go to bucket `b` of `n` by these hashes, in their order; a row without a hash goes to
/// none.
pub open spec fn hashed_bucket(rows: Seq<RowView>, hashes: Seq<Option<u64>>, n: nat, b: int) -> Seq<
    RowView,
>
    decreases rows.len(),
{
    if rows.len() == 0 {
        Seq::empty()
    } else {
        let before = hashed_bucket(rows.drop_last(), hashes.drop_last(), n, b);
        match hashes.last() {
            Some(h) => if h as nat % n == b {
                before.push(rows.last())
            } else {
                before
            },
            None => before,
        }
    }
}

/// Deals rows out to buckets by these hashes; rows without one are dropped. No buckets are taken as
/// one.
pub fn partition_by_hash(rows: &[Row], hashes: &Vec<Option<u64>>, n: usize) -> (r: Vec<Vec<Row>>)
    requires
        rows@.len() == hashes@.len(),
    ensures
        r@.len() == at_least_one(n),
        forall|b: int|
            0 <= b < r@.len() ==> (#[trigger] r@[b]).deep_view() == hashed_bucket(
                rows.deep_view(),
                hashes@,
                at_least_one(n),
                b,
            ),
{
    let count: usize = if n == 0 {
        1
    } else {
        n
    };
    let ghost all = rows.deep_view();
    let mut buckets: Vec<Vec<Row>> = Vec::new();
    let mut k: usize = 0;
    proof {
        assert(all.take(0) =~= Seq::<RowView>::empty());
    }
    while k < count
        invariant
            k <= count,
            buckets@.len() == k,
            forall|b: int| 0 <= b < k ==> (#[trigger] buckets@[b]).deep_view() == Seq::<RowView>::empty(),
        decreases count - k,
    {
        let empty: Vec<Row> = Vec::new();
        proof {
            assert(empty.deep_view() =~= Seq::<RowView>::empty());
        }
        buckets.push(empty);
        k = k + 1;
    }
    let mut i: usize = 0;
    while i < rows.len()
        invariant
            i <= rows@.len() == hashes@.len(),
            all == rows.deep_view(),
            buckets@.len() == count,
            count == at_least_one(n),
            forall|b: int|
                0 <= b < count ==> (#[trigger] buckets@[b]).deep_view() == hashed_bucket(
                    all.take(i as int),
                    hashes@.take(i as int),
                    count as nat,
                    b,
                ),
        decreases rows@.len() - i,
    {
        proof {
            assert(all.take(i + 1).drop_last() =~= all.take(i as int));
            assert(hashes@.take(i + 1).drop_last() =~= hashes@.take(i as int));
            assert(all.take(i + 1).last() == rows@[i as int].contents());
        }
        if let Some(hash) = hashes[i] {
            let b: usize = (hash % count as u64) as usize;
            let mut mine: Vec<Row> = Vec::new();
            std::mem::swap(&mut mine, &mut buckets[b]);
            let ghost before = mine.deep_view();
            mine.push(rows[i].duplicate());
            proof {
                assert(mine.deep_view() =~= before.push(all[i as int]));
            }
            std::mem::swap(&mut mine, &mut buckets[b]);
        }
        i = i + 1;
    }
    proof {
        assert(all.take(all.len() as int) =~= all);
        assert(hashes@.take(all.len() as int) =~= hashes@);
    }
    buckets
}

/// A hash of a key that is the same in every process and on every machine.
fn bucket_hash(key: &str) -> (r: u64)
    ensures
        r == digest::score_of(encode_utf8(key@)),
{
    score(key.as_bytes())
}

/// The hashes of the keys of rows.
pub open spec fn key_hashes(rows: Seq<RowView>, column: Seq<char>) -> Seq<Option<u64>> {
    Seq::new(rows.len(), |i: int| key_hash(rows[i], column))
}

/// The hash of the key of a row.
pub open spec fn key_hash(row: RowView, column: Seq<char>) -> Option<u64> {
    match join_key(row, column) {
        Some(key) => Some(digest::score_of(encode_utf8(key)) as u64),
        None => None,
    }
}

proof fn lemma_hashed_bucket(rows: Seq<RowView>, column: Seq<char>, n: nat, b: int)
    ensures
        hashed_bucket(rows, key_hashes(rows, column), n, b) == bucket(rows, column, n, b),
    decreases rows.len(),
{
    if rows.len() > 0 {
        let rest = rows.drop_last();
        lemma_hashed_bucket(rest, column, n, b);
        assert(key_hashes(rows, column).drop_last() =~= key_hashes(rest, column));
        if let Some(key) = join_key(rows.last(), column) {
            digest::lemma_score_fits(encode_utf8(key));
        }
    }
}

/// Deals rows out to buckets by their keys; rows without a key are dropped. No buckets are taken as
/// one.
pub fn partition_by_key(rows: &[Row], column: &str, n: usize) -> (r: Vec<Vec<Row>>)
    ensures
        r@.len() == at_least_one(n),
        forall|b: int|
            0 <= b < r@.len() ==> (#[trigger] r@[b]).deep_view() == bucket(
                rows.deep_view(),
                column@,
                at_least_one(n),
                b,
            ),
{
    let mut hashes: Vec<Option<u64>> = Vec::new();
    let mut i: usize = 0;
    while i < rows.len()
        invariant
            i <= rows@.len(),
            hashes@.len() == i,
            forall|j: int|
                0 <= j < i ==> #[trigger] hashes@[j] == key_hashes(rows.deep_view(), column@)[j],
        decreases rows@.len() - i,
    {
        let hash: Option<u64> = match key_str(&rows[i], column) {
            Some(key) => Some(bucket_hash(key.as_str())),
            None => None,
        };
        hashes.push(hash);
        i = i + 1;
    }
    proof {
        assert(hashes@ =~= key_hashes(rows.deep_view(), column@));
        assert forall|b: int| hashed_bucket(
            rows.deep_view(),
            hashes@,
            at_least_one(n),
            b,
        ) == #[trigger] bucket(rows.deep_view(), column@, at_least_one(n), b) by {
            lemma_hashed_bucket(rows.deep_view(), column@, at_least_one(n), b);
        }
    }
    partition_by_hash(rows, &hashes, n)
}

/// The joins of the first `b` of `n` pairs of buckets, one after another.
pub open spec fn bucket_joins(
    ls: Seq<RowView>,
    rs: Seq<RowView>,
    left: Seq<char>,
    right: Seq<char>,
    n: nat,
    b: nat,
) -> Seq<RowView>
    decreases b,
{
    if b == 0 {
        Seq::empty()
    } else {
        bucket_joins(ls, rs, left, right, n, (b - 1) as nat) + joined(
            bucket(ls, left, n, b - 1),
            bucket(rs, right, n, b - 1),
            left,
            right,
        )
    }
}

/// The join by buckets: both sides are dealt out to as many buckets by their keys, and each bucket
/// of the left is joined with its like on the right.
pub fn distributed_join(left: &[Row], right: &[Row], keys: &JoinKeys, partitions: usize) -> (r: Vec<
    Row,
>)
    ensures
        r.deep_view() == bucket_joins(
            left.deep_view(),
            right.deep_view(),
            keys.left@,
            keys.right@,
            at_least_one(partitions),
            at_least_one(partitions),
        ),
        r.deep_view().to_multiset() == joined(
            left.deep_view(),
            right.deep_view(),
            keys.left@,
            keys.right@,
        ).to_multiset(),
{
    let n: usize = if partitions == 0 {
        1
    } else {
        partitions
    };
    let ghost ls = left.deep_view();
    let ghost rs = right.deep_view();
    let lb: Vec<Vec<Row>> = partition_by_key(left, keys.left.as_str(), n);
    let rb: Vec<Vec<Row>> = partition_by_key(right, keys.right.as_str(), n);
    let mut out: Vec<Row> = Vec::new();
    let mut i: usize = 0;
    proof {
        assert(out.deep_view() =~= Seq::<RowView>::empty());
    }
    while i < n
        invariant
            i <= n,
            n == at_least_one(partitions),
            lb@.len() == n,
            rb@.len() == n,
            ls == left.deep_view(),
            rs == right.deep_view(),
            forall|b: int|
                0 <= b < n ==> (#[trigger] lb@[b]).deep_view() == bucket(ls, keys.left@, n as nat, b),
            forall|b: int|
                0 <= b < n ==> (#[trigger] rb@[b]).deep_view() == bucket(rs, keys.right@, n as nat, b),
            out.deep_view() == bucket_joins(ls, rs, keys.left@, keys.right@, n as nat, i as nat),
        decreases n - i,
    {
        let mut part: Vec<Row> = hash_join(lb[i].as_slice(), rb[i].as_slice(), keys);
        let ghost before = out.deep_view();
        let ghost added = part.deep_view();
        out.append(&mut part);
        proof {
            assert(out.deep_view() =~= before + added);
        }
        i = i + 1;
    }
    proof {
        lemma_distributed_join(ls, rs, keys.left@, keys.right@, n as nat);
    }
    out
}

/// Of the rows that a row goes together with, all are in its bucket.
proof fn lemma_matches_in_bucket(
    l: RowView,
    rows: Seq<RowView>,
    left: Seq<char>,
    right: Seq<char>,
    n: nat,
    b: int,
)
    requires
        in_bucket(l, left, n, b),
    ensures
        matches_of(l, bucket(rows, right, n, b), left, right) == matches_of(l, rows, left, right),
    decreases rows.len(),
{
    if rows.len() > 0 {
        let rest = rows.drop_last();
        lemma_matches_in_bucket(l, rest, left, right, n, b);
        let mine = bucket(rest, right, n, b);
        assert(mine.push(rows.last()).drop_last() =~= mine);
    }
}

/// Where one row is added on the left, the joins of its bucket gain what it goes together with, and
/// no other does.
proof fn lemma_bucket_joins_push(
    ls: Seq<RowView>,
    l: RowView,
    rs: Seq<RowView>,
    left: Seq<char>,
    right: Seq<char>,
    n: nat,
    b: nat,
)
    requires
        n > 0,
        b <= n,
    ensures
        bucket_joins(ls.push(l), rs, left, right, n, b).to_multiset() == (if join_key(l, left) is Some
            && bucket_of(join_key(l, left)->0, n) < b {
            bucket_joins(ls, rs, left, right, n, b).to_multiset().add(
                matches_of(l, rs, left, right).to_multiset(),
            )
        } else {
            bucket_joins(ls, rs, left, right, n, b).to_multiset()
        }),
    decreases b,
{
    if b > 0 {
        let m = (b - 1) as nat;
        lemma_bucket_joins_push(ls, l, rs, left, right, n, m);
        assert(ls.push(l).drop_last() =~= ls);
        let x = bucket(ls, left, n, m as int);
        let y = bucket(rs, right, n, m as int);
        lemma_multiset_commutative(bucket_joins(ls, rs, left, right, n, m), joined(x, y, left, right));
        let found = matches_of(l, rs, left, right);
        if in_bucket(l, left, n, m as int) {
            assert(bucket(ls.push(l), left, n, m as int) == x.push(l));
            assert(x.push(l).drop_last() =~= x);
            lemma_matches_in_bucket(l, rs, left, right, n, m as int);
            assert(joined(x.push(l), y, left, right) == joined(x, y, left, right) + found);
            lemma_multiset_commutative(joined(x, y, left, right), found);
            lemma_multiset_commutative(
                bucket_joins(ls.push(l), rs, left, right, n, m),
                joined(x.push(l), y, left, right),
            );
            assert(bucket_joins(ls.push(l), rs, left, right, n, b).to_multiset() =~= bucket_joins(
                ls,
                rs,
                left,
                right,
                n,
                b,
            ).to_multiset().add(found.to_multiset()));
        } else {
            assert(bucket(ls.push(l), left, n, m as int) == x);
            lemma_multiset_commutative(
                bucket_joins(ls.push(l), rs, left, right, n, m),
                joined(x, y, left, right),
            );
            if join_key(l, left) is Some && bucket_of(join_key(l, left)->0, n) < b {
                assert(bucket_joins(ls.push(l), rs, left, right, n, b).to_multiset() =~= bucket_joins(
                    ls,
                    rs,
                    left,
                    right,
                    n,
                    b,
                ).to_multiset().add(found.to_multiset()));
            }
        }
    }
}

proof fn lemma_no_joins(rs: Seq<RowView>, left: Seq<char>, right: Seq<char>, n: nat, b: nat)
    ensures
        bucket_joins(Seq::empty(), rs, left, right, n, b) == Seq::<RowView>::empty(),
    decreases b,
{
    if b > 0 {
        lemma_no_joins(rs, left, right, n, (b - 1) as nat);
        assert(bucket_joins(Seq::empty(), rs, left, right, n, b) =~= Seq::<RowView>::empty());
    }
}

/// The join by buckets gives the rows of the join at once, for any number of buckets.
pub proof fn lemma_distributed_join(
    ls: Seq<RowView>,
    rs: Seq<RowView>,
    left: Seq<char>,
    right: Seq<char>,
    n: nat,
)
    requires
        n > 0,
    ensures
        bucket_joins(ls, rs, left, right, n, n).to_multiset() == joined(
            ls,
            rs,
            left,
            right,
        ).to_multiset(),
    decreases ls.len(),
{
    if ls.len() == 0 {
        assert(ls =~= Seq::<RowView>::empty());
        lemma_no_joins(rs, left, right, n, n);
    } else {
        let rest = ls.drop_last();
        let l = ls.last();
        lemma_distributed_join(rest, rs, left, right, n);
        assert(ls =~= rest.push(l));
        lemma_bucket_joins_push(rest, l, rs, left, right, n, n);
        lemma_multiset_commutative(joined(rest, rs, left, right), matches_of(l, rs, left, right));
        if join_key(l, left) is None {
            lemma_no_key(l, rs, left, right);
            assert(joined(ls, rs, left, right) =~= joined(rest, rs, left, right));
        } else {
            assert(bucket_of(join_key(l, left)->0, n) < n) by {
                vstd::arithmetic::div_mod::lemma_mod_bound(
                    digest::score_of(encode_utf8(join_key(l, left)->0)) as int,
                    n as int,
                );
            }
        }
    }
}

/// Rows with equal keys are in one bucket, on whichever side they stand.
pub proof fn lemma_co_partitioned(
    l: RowView,
    r: RowView,
    left: Seq<char>,
    right: Seq<char>,
    n: nat,
    b: int,
)
    requires
        pairs(l, r, left, right),
    ensures
        in_bucket(l, left, n, b) <==> in_bucket(r, right, n, b),
{
}

/// How many rows have a key.
pub open spec fn count_key(rows: Seq<RowView>, column: Seq<char>, key: Seq<char>) -> nat
    decreases rows.len(),
{
    if rows.len() == 0 {
        0
    } else {
        count_key(rows.drop_last(), column, key) + (if join_key(rows.last(), column) == Some(key) {
            1nat
        } else {
            0nat
        })
    }
}

/// The sum over keys of the number of left rows times the number of right rows that have the key.
pub open spec fn pair_count(
    ls: Seq<RowView>,
    rs: Seq<RowView>,
    left: Seq<char>,
    right: Seq<char>,
    keys: Seq<Seq<char>>,
) -> nat
    decreases keys.len(),
{
    if keys.len() == 0 {
        0
    } else {
        pair_count(ls, rs, left, right, keys.drop_last()) + count_key(ls, left, keys.last()) * count_key(
            rs,
            right,
            keys.last(),
        )
    }
}

proof fn lemma_match_count(l: RowView, rs: Seq<RowView>, left: Seq<char>, right: Seq<char>)
    ensures
        matches_of(l, rs, left, right).len() == (match join_key(l, left) {
            Some(key) => count_key(rs, right, key),
            None => 0,
        }),
    decreases rs.len(),
{
    if rs.len() > 0 {
        lemma_match_count(l, rs.drop_last(), left, right);
    }
}

proof fn lemma_pair_count_push(
    ls: Seq<RowView>,
    l: RowView,
    rs: Seq<RowView>,
    left: Seq<char>,
    right: Seq<char>,
    keys: Seq<Seq<char>>,
)
    requires
        keys.no_duplicates(),
    ensures
        pair_count(ls.push(l), rs, left, right, keys) == pair_count(ls, rs, left, right, keys) + (
        match join_key(l, left) {
            Some(key) => if keys.contains(key) {
                count_key(rs, right, key)
            } else {
                0
            },
            None => 0,
        }),
    decreases keys.len(),
{
    assert(ls.push(l).drop_last() =~= ls);
    if keys.len() > 0 {
        let rest = keys.drop_last();
        let k = keys.last();
        lemma_pair_count_push(ls, l, rs, left, right, rest);
        let c = count_key(ls, left, k);
        let d = count_key(rs, right, k);
        assert((c + 1) * d == c * d + d) by (nonlinear_arith);
        if join_key(l, left) is Some {
            let key = join_key(l, left)->0;
            if key == k {
                assert(keys[keys.len() - 1] == k);
                if rest.contains(k) {
                    let i = choose|i: int| 0 <= i < rest.len() && rest[i] == k;
                    assert(keys[i] == k);
                }
            } else {
                if rest.contains(key) {
                    let i = choose|i: int| 0 <= i < rest.len() && rest[i] == key;
                    assert(keys[i] == key);
                }
                if keys.contains(key) {
                    let i = choose|i: int| 0 <= i < keys.len() && keys[i] == key;
                    assert(rest[i] == key);
                }
            }
        }
    }
}

/// A join has, for every key, as many rows as there are pairs of a left and a right row with it.
/// `keys` are the keys of the left rows, each once; others may be among them.
pub proof fn lemma_join_cardinality(
    ls: Seq<RowView>,
    rs: Seq<RowView>,
    left: Seq<char>,
    right: Seq<char>,
    keys: Seq<Seq<char>>,
)
    requires
        keys.no_duplicates(),
        forall|i: int|
            0 <= i < ls.len() ==> (join_key(#[trigger] ls[i], left) matches Some(k) ==> keys.contains(k)),
    ensures
        joined(ls, rs, left, right).len() == pair_count(ls, rs, left, right, keys),
    decreases ls.len(),
{
    if ls.len() == 0 {
        lemma_no_pairs(ls, rs, left, right, keys);
    } else {
        let rest = ls.drop_last();
        let l = ls.last();
        assert forall|i: int| 0 <= i < rest.len() implies (join_key(#[trigger] rest[i], left) matches Some(k)
            ==> keys.contains(k)) by {
            assert(rest[i] == ls[i]);
        }
        lemma_join_cardinality(rest, rs, left, right, keys);
        lemma_match_count(l, rs, left, right);
        assert(ls =~= rest.push(l));
        assert(ls[ls.len() - 1] == l);
        lemma_pair_count_push(rest, l, rs, left, right, keys);
    }
}

proof fn lemma_no_pairs(
    ls: Seq<RowView>,
    rs: Seq<RowView>,
    left: Seq<char>,
    right: Seq<char>,
    keys: Seq<Seq<char>>,
)
    requires
        ls.len() == 0,
    ensures
        pair_count(ls, rs, left, right, keys) == 0,
    decreases keys.len(),
{
    if keys.len() > 0 {
        lemma_no_pairs(ls, rs, left, right, keys.drop_last());
        assert(0 * count_key(rs, right, keys.last()) == 0);
    }
}

} // verus!
