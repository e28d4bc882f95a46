//! Which rows a join pairs, and what a pair becomes.

use crate::dataset::RowView;
use crate::grouping::said;
use crate::join;
use crate::join::{bucket, bucket_of, joined, matches_of, merged_row};
use crate::json::JsonView;
use crate::table;
use vstd::prelude::*;
use vstd::utf8::*;

verus! {

/// A row has a key in the column: something other than null.
pub open spec fn has_key(row: RowView, column: Seq<char>) -> bool {
    row.dom().contains(column) && !(row[column].value is Null)
}

/// Two rows have the same key: the same text in their columns.
pub open spec fn same_key(l: RowView, r: RowView, left: Seq<char>, right: Seq<char>) -> bool {
    has_key(l, left) && has_key(r, right) && said(l[left]) == said(r[right])
}

proof fn lemma_matches(l: RowView, rs: Seq<RowView>, left: Seq<char>, right: Seq<char>) -> (places: Seq<
    int,
>)
    ensures
        places.len() == matches_of(l, rs, left, right).len(),
        forall|n: int|
            0 <= n < places.len() ==> 0 <= #[trigger] places[n] < rs.len() && same_key(
                l,
                rs[places[n]],
                left,
                right,
            ) && matches_of(l, rs, left, right)[n] == merged_row(l, rs[places[n]]),
        forall|m: int, n: int| 0 <= m < n < places.len() ==> #[trigger] places[m] < #[trigger] places[n],
        forall|j: int|
            0 <= j < rs.len() && same_key(l, #[trigger] rs[j], left, right) ==> places.contains(j),
    decreases rs.len(),
{
    if rs.len() == 0 {
        Seq::empty()
    } else {
        let rest = rs.drop_last();
        let end = rs.len() - 1;
        let before = lemma_matches(l, rest, left, right);
        assert forall|n: int| 0 <= n < before.len() implies 0 <= #[trigger] before[n] < rest.len()
            && rest[before[n]] == rs[before[n]] by {}
        assert(join::pairs(l, rs.last(), left, right) <==> same_key(l, rs.last(), left, right));
        if same_key(l, rs.last(), left, right) {
            let places = before.push(end);
            assert forall|j: int| 0 <= j < rs.len() && same_key(l, #[trigger] rs[j], left, right) implies places.contains(
            j) by {
                if j < end {
                    assert(rest[j] == rs[j]);
                    let n = before.index_of(j);
                    assert(places[n] == j);
                } else {
                    assert(places[before.len() as int] == j);
                }
            }
            places
        } else {
            assert forall|j: int| 0 <= j < rs.len() && same_key(l, #[trigger] rs[j], left, right) implies before.contains(
            j) by {
                assert(rest[j] == rs[j]);
            }
            before
        }
    }
}

/// A join gives one row for each pair of a left and a right row with the same key, and no others: by the
/// left rows in their order, and for each by the right rows in theirs. The result are the places of
/// these pairs.
#[verifier::rlimit(30)]
pub proof fn lemma_join(
    ls: Seq<RowView>,
    rs: Seq<RowView>,
    left: Seq<char>,
    right: Seq<char>,
) -> (places: Seq<(int, int)>)
    ensures
        places.len() == joined(ls, rs, left, right).len(),
        forall|n: int|
            0 <= n < places.len() ==> 0 <= (#[trigger] places[n]).0 < ls.len() && 0 <= places[n].1
                < rs.len() && same_key(ls[places[n].0], rs[places[n].1], left, right),
        forall|n: int|
            0 <= n < places.len() ==> joined(ls, rs, left, right)[n] == merged_row(
                ls[(#[trigger] places[n]).0],
                rs[places[n].1],
            ),
        forall|m: int, n: int|
            0 <= m < n < places.len() ==> (#[trigger] places[m]).0 < (#[trigger] places[n]).0 || (
            places[m].0 == places[n].0 && places[m].1 < places[n].1),
        forall|i: int, j: int|
            0 <= i < ls.len() && 0 <= j < rs.len() && same_key(
                #[trigger] ls[i],
                #[trigger] rs[j],
                left,
                right,
            ) ==> places.contains((i, j)),
    decreases ls.len(),
{
    if ls.len() == 0 {
        Seq::empty()
    } else {
        let rest = ls.drop_last();
        let end = ls.len() - 1;
        let before = lemma_join(rest, rs, left, right);
        let found = lemma_matches(ls.last(), rs, left, right);
        let last = Seq::new(found.len(), |n: int| (end, found[n]));
        let places = before + last;
        assert forall|n: int| 0 <= n < places.len() implies 0 <= (#[trigger] places[n]).0 < ls.len() && 0
            <= places[n].1 < rs.len() && same_key(ls[places[n].0], rs[places[n].1], left, right)
            && joined(ls, rs, left, right)[n] == merged_row(ls[places[n].0], rs[places[n].1]) by {
            if n < before.len() {
                assert(places[n] == before[n]);
                assert(rest[before[n].0] == ls[before[n].0]);
            } else {
                assert(places[n] == (end, found[n - before.len()]));
            }
        }
        assert forall|m: int, n: int| 0 <= m < n < places.len() implies (#[trigger] places[m]).0 < (
        #[trigger] places[n]).0 || (places[m].0 == places[n].0 && places[m].1 < places[n].1) by {
            if m < before.len() {
                assert(places[m] == before[m]);
                if n < before.len() {
                    assert(places[n] == before[n]);
                }
            } else {
                assert(found[m - before.len()] < found[n - before.len()]);
            }
        }
        assert forall|i: int, j: int|
            0 <= i < ls.len() && 0 <= j < rs.len() && same_key(
                #[trigger] ls[i],
                #[trigger] rs[j],
                left,
                right,
            ) implies places.contains((i, j)) by {
            if i < end {
                assert(rest[i] == ls[i]);
                let n = before.index_of((i, j));
                assert(before.contains((i, j)));
                assert(places[n] == (i, j));
            } else {
                let n = found.index_of(j);
                assert(found.contains(j));
                assert(places[before.len() + n] == (i, j));
            }
        }
        places
    }
}

/// Rows whose keys are strings are joined exactly where these are the same string.
pub proof fn lemma_string_keys(
    ls: Seq<RowView>,
    rs: Seq<RowView>,
    left: Seq<char>,
    right: Seq<char>,
    i: int,
    j: int,
    a: Seq<char>,
    b: Seq<char>,
) -> (places: Seq<(int, int)>)
    requires
        0 <= i < ls.len(),
        0 <= j < rs.len(),
        ls[i].dom().contains(left),
        rs[j].dom().contains(right),
        ls[i][left].value == JsonView::String(a),
        rs[j][right].value == JsonView::String(b),
    ensures
        places.len() == joined(ls, rs, left, right).len(),
        forall|n: int|
            0 <= n < places.len() ==> joined(ls, rs, left, right)[n] == merged_row(
                ls[(#[trigger] places[n]).0],
                rs[places[n].1],
            ),
        places.contains((i, j)) <==> a == b,
        a == b ==> joined(ls, rs, left, right).contains(merged_row(ls[i], rs[j])),
{
    let places = lemma_join(ls, rs, left, right);
    if a == b {
        assert(same_key(ls[i], rs[j], left, right));
        let n = places.index_of((i, j));
        assert(joined(ls, rs, left, right)[n] == merged_row(ls[i], rs[j]));
    } else if places.contains((i, j)) {
        let n = places.index_of((i, j));
        assert(places[n] == (i, j));
        assert(same_key(ls[i], rs[j], left, right));
    }
    places
}

/// Each row with a key goes into one bucket, which depends on the text of the key alone, and rows without
/// a key into none; a bucket keeps the order of its rows. The result are their places.
pub proof fn lemma_bucket(rows: Seq<RowView>, column: Seq<char>, n: nat, b: int) -> (places: Seq<int>)
    requires
        n > 0,
    ensures
        places.len() == bucket(rows, column, n, b).len(),
        forall|k: int|
            0 <= k < places.len() ==> 0 <= #[trigger] places[k] < rows.len() && bucket(rows, column, n, b)[k]
                == rows[places[k]] && has_key(rows[places[k]], column) && bucket_of(
                said(rows[places[k]][column]),
                n,
            ) == b,
        forall|m: int, k: int| 0 <= m < k < places.len() ==> #[trigger] places[m] < #[trigger] places[k],
        forall|i: int|
            0 <= i < rows.len() && has_key(#[trigger] rows[i], column) ==> 0 <= bucket_of(
                said(rows[i][column]),
                n,
            ) < n && (bucket_of(said(rows[i][column]), n) == b ==> places.contains(i)),
    decreases rows.len(),
{
    if rows.len() == 0 {
        Seq::empty()
    } else {
        let rest = rows.drop_last();
        let row = rows.last();
        let end = rows.len() - 1;
        let before = lemma_bucket(rest, column, n, b);
        assert forall|k: int| 0 <= k < before.len() implies 0 <= #[trigger] before[k] < rest.len()
            && rest[before[k]] == rows[before[k]] by {}
        assert(has_key(row, column) ==> 0 <= bucket_of(said(row[column]), n) < n);
        let goes = has_key(row, column) && bucket_of(said(row[column]), n) == b;
        assert(join::in_bucket(row, column, n, b) <==> goes);
        let places = if goes {
            before.push(end)
        } else {
            before
        };
        assert forall|i: int| 0 <= i < rows.len() && has_key(#[trigger] rows[i], column) implies 0 <= bucket_of(
            said(rows[i][column]),
            n,
        ) < n && (bucket_of(said(rows[i][column]), n) == b ==> places.contains(i)) by {
            if i < end {
                assert(rest[i] == rows[i]);
                if bucket_of(said(rows[i][column]), n) == b {
                    let k = before.index_of(i);
                    assert(before.contains(i));
                    assert(places[k] == i);
                }
            } else if goes {
                assert(places[before.len() as int] == i);
            }
        }
        places
    }
}

/// What the columns of the right row are called in the merged row: names that the left row does not have,
/// no two the same, each ending in the name of its column; and there are no columns but these and those
/// of the left row.
pub open spec fn names_apart(
    base: RowView,
    right: RowView,
    columns: Set<Seq<char>>,
    names: Map<Seq<char>, Seq<char>>,
    out: RowView,
) -> bool {
    &&& names.dom() == columns
    &&& forall|k: Seq<char>| #[trigger]
        base.dom().contains(k) ==> out.dom().contains(k) && out[k] == base[k]
    &&& forall|k: Seq<char>| #[trigger]
        columns.contains(k) ==> out.dom().contains(names[k]) && out[names[k]] == right[k]
            && !base.dom().contains(names[k]) && ends_in(names[k], k)
    &&& forall|a: Seq<char>, b: Seq<char>|
        #![trigger columns.contains(a), columns.contains(b)]
        columns.contains(a) && columns.contains(b) && a != b ==> names[a] != names[b]
    &&& forall|c: Seq<char>| #[trigger]
        out.dom().contains(c) ==> base.dom().contains(c) || called(columns, names, c)
}

pub open spec fn ends_in(name: Seq<char>, column: Seq<char>) -> bool {
    name.len() >= column.len() && name.skip(name.len() - column.len()) == column
}

pub open spec fn called(columns: Set<Seq<char>>, names: Map<Seq<char>, Seq<char>>, c: Seq<char>) -> bool {
    exists|k: Seq<char>| #[trigger] columns.contains(k) && names[k] == c
}

proof fn lemma_prefixed_ends(name: Seq<char>, n: nat)
    ensures
        ends_in(join::prefixed(name, n), name),
    decreases n,
{
    if n == 0 {
        assert(name.skip(0) =~= name);
    } else {
        let p = join::prefixed(name, (n - 1) as nat);
        lemma_prefixed_ends(name, (n - 1) as nat);
        let s = "right."@ + p;
        assert(s.skip(s.len() - name.len()) =~= p.skip(p.len() - name.len()));
    }
}

#[verifier::rlimit(30)]
proof fn lemma_turn(
    base: RowView,
    left: RowView,
    right: RowView,
    list: Seq<Seq<char>>,
    n: nat,
    now: int,
) -> (names: Map<Seq<char>, Seq<char>>)
    requires
        base.dom().finite(),
        n <= list.len(),
        list.no_duplicates(),
    ensures
        join::merged_part(base, left, right, list, n, now).dom().finite(),
        names_apart(
            base,
            right,
            Set::new(|k: Seq<char>| list.take(n as int).contains(k) && join::turn(left, k) == now),
            names,
            join::merged_part(base, left, right, list, n, now),
        ),
    decreases n,
{
    let columns = Set::new(|k: Seq<char>| list.take(n as int).contains(k) && join::turn(left, k) == now);
    if n == 0 {
        assert(columns =~= Set::empty());
        Map::empty()
    } else {
        let k = list[n - 1];
        let names = lemma_turn(base, left, right, list, (n - 1) as nat, now);
        let earlier = Set::new(
            |k: Seq<char>| list.take(n - 1).contains(k) && join::turn(left, k) == now,
        );
        let before = join::merged_part(base, left, right, list, (n - 1) as nat, now);
        assert(list.take(n as int) =~= list.take(n - 1).push(k));
        assert forall|c: Seq<char>| list.take(n as int).contains(c) <==> list.take(n - 1).contains(c) || c
            == k by {
            if list.take(n - 1).contains(c) {
                let i = list.take(n - 1).index_of(c);
                assert(list.take(n as int)[i] == c);
            }
            if list.take(n as int).contains(c) && c != k {
                let i = list.take(n as int).index_of(c);
                assert(list.take(n - 1)[i] == c);
            }
            if c == k {
                assert(list.take(n as int)[n - 1] == c);
            }
        }
        assert(!list.take(n - 1).contains(k)) by {
            if list.take(n - 1).contains(k) {
                let i = list.take(n - 1).index_of(k);
                assert(list[i] == k);
            }
        }
        if join::turn(left, k) == now {
            let name = join::free_name(before.dom(), k);
            join::lemma_some_free(before.dom(), k);
            lemma_prefixed_ends(k, choose|m: nat| join::frees(before.dom(), k, m));
            let more = names.insert(k, name);
            let out = before.insert(name, right[k]);
            assert(columns =~= earlier.insert(k));
            assert(more.dom() =~= columns);
            assert forall|c: Seq<char>| #[trigger] columns.contains(c) implies out.dom().contains(more[c])
                && out[more[c]] == right[c] && !base.dom().contains(more[c]) && ends_in(more[c], c) by {
                if c != k {
                    assert(earlier.contains(c));
                }
            }
            assert forall|a: Seq<char>, b: Seq<char>|
                #![trigger columns.contains(a), columns.contains(b)]
                columns.contains(a) && columns.contains(b) && a != b implies more[a] != more[b] by {
                if a != k {
                    assert(earlier.contains(a));
                }
                if b != k {
                    assert(earlier.contains(b));
                }
            }
            assert forall|c: Seq<char>| #[trigger] out.dom().contains(c) implies base.dom().contains(c)
                || called(columns, more, c) by {
                if c == name {
                    assert(columns.contains(k));
                } else if !base.dom().contains(c) {
                    assert(before.dom().contains(c));
                    let a = choose|a: Seq<char>| #[trigger] earlier.contains(a) && names[a] == c;
                    assert(columns.contains(a));
                }
            }
            more
        } else {
            assert(columns =~= earlier);
            names
        }
    }
}

/// A merged row has the columns of the left row as they are, and each column of the right row once, under
/// a name of its own: its own name where the left row has no such column, and that name after a prefix
/// otherwise. It has no other columns.
#[verifier::rlimit(30)]
pub proof fn lemma_merged(left: RowView, right: RowView) -> (names: Map<Seq<char>, Seq<char>>)
    requires
        left.dom().finite(),
        table::lists::<String>(table::listing::<String>(right.dom()), right.dom()),
    ensures
        names_apart(left, right, right.dom(), names, merged_row(left, right)),
        forall|k: Seq<char>| #[trigger]
            right.dom().contains(k) && !left.dom().contains(k) && (forall|rest: Seq<char>|
                k != "right."@ + rest) ==> merged_row(left, right).dom().contains(k) && merged_row(
                left,
                right,
            )[k] == right[k],
        forall|k: Seq<char>| #[trigger]
            right.dom().contains(k) && left.dom().contains(k) && !left.dom().contains("right."@ + k)
                ==> merged_row(left, right).dom().contains("right."@ + k) && merged_row(left, right)["right."@
                + k] == right[k],
{
    join::lemma_merge_keeps_all(left, right);
    let list = table::listing::<String>(right.dom());
    let n = list.len();
    assert(list.no_duplicates()) by {
        assert forall|i: int, j: int| 0 <= i < j < list.len() implies list[i] != list[j] by {
            table::lemma_place::<String>(list, i);
            table::lemma_place::<String>(list, j);
        }
    }
    let one = join::merged_turn(left, left, right, 0);
    let two = join::merged_turn(one, left, right, 1);
    let out = merged_row(left, right);
    let a = lemma_turn(left, left, right, list, n, 0);
    let b = lemma_turn(one, left, right, list, n, 1);
    let c = lemma_turn(two, left, right, list, n, 2);
    assert(list.take(n as int) =~= list);
    let s0 = Set::new(|k: Seq<char>| list.take(n as int).contains(k) && join::turn(left, k) == 0);
    let s1 = Set::new(|k: Seq<char>| list.take(n as int).contains(k) && join::turn(left, k) == 1);
    let s2 = Set::new(|k: Seq<char>| list.take(n as int).contains(k) && join::turn(left, k) == 2);
    let columns = right.dom();
    assert forall|k: Seq<char>| columns.contains(k) <==> list.contains(k) by {}
    let names = Map::new(
        |k: Seq<char>| columns.contains(k),
        |k: Seq<char>|
            if join::turn(left, k) == 0 {
                a[k]
            } else if join::turn(left, k) == 1 {
                b[k]
            } else {
                c[k]
            },
    );
    assert(names.dom() =~= columns);
    assert forall|k: Seq<char>| #[trigger] columns.contains(k) implies out.dom().contains(names[k])
        && out[names[k]] == right[k] && !left.dom().contains(names[k]) && ends_in(names[k], k) by {
        assert(s0.contains(k) || s1.contains(k) || s2.contains(k));
        if left.dom().contains(names[k]) {
            assert(one.dom().contains(names[k]));
            assert(two.dom().contains(names[k]));
        }
        if s0.contains(k) {
            assert(one.dom().contains(names[k]));
            assert(two.dom().contains(names[k]));
        } else if s1.contains(k) {
            assert(two.dom().contains(names[k]));
        }
    }
    assert forall|k: Seq<char>| #[trigger] left.dom().contains(k) implies out.dom().contains(k) && out[k]
        == left[k] by {
        assert(one.dom().contains(k));
        assert(two.dom().contains(k));
    }
    assert forall|x: Seq<char>, y: Seq<char>|
        #![trigger columns.contains(x), columns.contains(y)]
        columns.contains(x) && columns.contains(y) && x != y implies names[x] != names[y] by {
        assert(s0.contains(x) || s1.contains(x) || s2.contains(x));
        assert(s0.contains(y) || s1.contains(y) || s2.contains(y));
        if s0.contains(x) {
            assert(one.dom().contains(names[x]) && two.dom().contains(names[x]));
        }
        if s0.contains(y) {
            assert(one.dom().contains(names[y]) && two.dom().contains(names[y]));
        }
        if s1.contains(x) {
            assert(two.dom().contains(names[x]));
        }
        if s1.contains(y) {
            assert(two.dom().contains(names[y]));
        }
    }
    assert forall|d: Seq<char>| #[trigger] out.dom().contains(d) implies left.dom().contains(d) || called(
        columns,
        names,
        d,
    ) by {
        if !two.dom().contains(d) {
            let k = choose|k: Seq<char>| #[trigger] s2.contains(k) && c[k] == d;
            assert(columns.contains(k));
        } else if !one.dom().contains(d) {
            let k = choose|k: Seq<char>| #[trigger] s1.contains(k) && b[k] == d;
            assert(columns.contains(k));
        } else if !left.dom().contains(d) {
            let k = choose|k: Seq<char>| #[trigger] s0.contains(k) && a[k] == d;
            assert(columns.contains(k));
        }
    }
    names
}

/// The hash of a row is that of the text of its key; a row without a key has none.
pub proof fn lemma_key_hash(rows: Seq<RowView>, column: Seq<char>, i: int)
    requires
        0 <= i < rows.len(),
    ensures
        join::key_hashes(rows, column).len() == rows.len(),
        join::key_hashes(rows, column)[i] is Some <==> has_key(rows[i], column),
        has_key(rows[i], column) ==> join::key_hashes(rows, column)[i] == Some(
            crate::digest::score_of(encode_utf8(said(rows[i][column]))) as u64,
        ),
{
}

/// Rows with hashes go into the buckets of their hashes, modulo the number of buckets, and keep their
/// order; rows without a hash into none. The result are their places.
pub proof fn lemma_hashed(rows: Seq<RowView>, hashes: Seq<Option<u64>>, n: nat, b: int) -> (places: Seq<int>)
    requires
        rows.len() == hashes.len(),
        n > 0,
    ensures
        places.len() == join::hashed_bucket(rows, hashes, n, b).len(),
        forall|k: int|
            0 <= k < places.len() ==> 0 <= #[trigger] places[k] < rows.len() && join::hashed_bucket(
                rows,
                hashes,
                n,
                b,
            )[k] == rows[places[k]] && (hashes[places[k]] matches Some(h) && h as int % n as int == b),
        forall|m: int, k: int| 0 <= m < k < places.len() ==> #[trigger] places[m] < #[trigger] places[k],
        forall|i: int|
            0 <= i < rows.len() && (#[trigger] hashes[i] matches Some(h) && h as int % n as int == b)
                ==> places.contains(i),
    decreases rows.len(),
{
    if rows.len() == 0 {
        Seq::empty()
    } else {
        let rest = rows.drop_last();
        let fewer = hashes.drop_last();
        let end = rows.len() - 1;
        let before = lemma_hashed(rest, fewer, n, b);
        assert forall|k: int| 0 <= k < before.len() implies 0 <= #[trigger] before[k] < rest.len()
            && rest[before[k]] == rows[before[k]] && fewer[before[k]] == hashes[before[k]] by {}
        let goes = hashes.last() matches Some(h) && h as int % n as int == b;
        let places = if goes {
            before.push(end)
        } else {
            before
        };
        assert forall|i: int|
            0 <= i < rows.len() && (#[trigger] hashes[i] matches Some(h) && h as int % n as int == b) implies places.contains(
        i) by {
            if i < end {
                assert(fewer[i] == hashes[i]);
                let k = before.index_of(i);
                assert(before.contains(i));
                assert(places[k] == i);
            } else {
                assert(places[before.len() as int] == i);
            }
        }
        places
    }
}

/// There is always a bucket: none is taken as one.
pub proof fn lemma_buckets(n: usize)
    ensures
        join::at_least_one(n) > 0,
        n > 0 ==> join::at_least_one(n) == n,
        n == 0 ==> join::at_least_one(n) == 1,
{
}

} // verus!
