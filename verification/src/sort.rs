//! Stable sorting of places by any ranking.
//!
//! What is sorted are the places `0..n` of a sequence. A ranking says of two places whether the one
//! does not come after the other. Where it is total there is exactly one stable arrangement.

use vstd::prelude::*;

verus! {

/// A ranking of the places `0..n`: any two are ranked, and ranks are transitive.
pub open spec fn total(n: int, le: spec_fn(int, int) -> bool) -> bool {
    &&& forall|i: int, j: int| 0 <= i < n && 0 <= j < n ==> #[trigger] le(i, j) || le(j, i)
    &&& forall|i: int, j: int, k: int|
        0 <= i < n && 0 <= j < n && 0 <= k < n && #[trigger] le(i, j) && #[trigger] le(j, k) ==> le(i, k)
}

/// Place `i` comes before place `j`: it is ranked lower, or the same and stands before it.
pub open spec fn first(le: spec_fn(int, int) -> bool, i: int, j: int) -> bool {
    le(i, j) && (le(j, i) ==> i < j)
}

/// `p` holds the places `0..n`, each once, each after those that come before it.
pub open spec fn is_arrangement(p: Seq<int>, n: int, le: spec_fn(int, int) -> bool) -> bool {
    &&& p.to_multiset() == places(0, n).to_multiset()
    &&& forall|i: int, j: int| 0 <= i < j < p.len() ==> first(le, #[trigger] p[i], #[trigger] p[j])
}

/// The stable arrangement of the places `0..n`.
pub open spec fn arrangement(n: int, le: spec_fn(int, int) -> bool) -> Seq<int> {
    choose|p: Seq<int>| is_arrangement(p, n, le)
}

/// The places from `a` up to `b`.
pub open spec fn places(a: int, b: int) -> Seq<int> {
    Seq::new(
        if b > a {
            (b - a) as nat
        } else {
            0
        },
        |i: int| a + i,
    )
}

/// The members of a sequence at places.
pub open spec fn arranged<T>(s: Seq<T>, p: Seq<int>) -> Seq<T> {
    Seq::new(p.len(), |i: int| s[p[i]])
}

/// What one of two sequences with the same multiset has, the other has.
pub(crate) proof fn lemma_same_members<T>(p: Seq<T>, q: Seq<T>, x: T)
    requires
        p.to_multiset() == q.to_multiset(),
        p.contains(x),
    ensures
        q.contains(x),
{
    p.to_multiset_ensures();
    q.to_multiset_ensures();
    assert(p.to_multiset().count(x) > 0);
    assert(q.to_multiset().count(x) > 0);
}

/// An arrangement has every place once.
pub proof fn lemma_places(p: Seq<int>, n: int)
    requires
        p.to_multiset() == places(0, n).to_multiset(),
        n >= 0,
    ensures
        p.len() == n,
        forall|i: int| 0 <= i < p.len() ==> 0 <= #[trigger] p[i] < n,
        forall|x: int| 0 <= x < n ==> p.contains(x),
{
    p.to_multiset_ensures();
    places(0, n).to_multiset_ensures();
    assert forall|i: int| 0 <= i < p.len() implies 0 <= #[trigger] p[i] < n by {
        assert(p.contains(p[i]));
        lemma_same_members(p, places(0, n), p[i]);
    }
    assert forall|x: int| 0 <= x < n implies p.contains(x) by {
        assert(places(0, n)[x] == x);
        assert(places(0, n).contains(x));
        lemma_same_members(places(0, n), p, x);
    }
}

/// Two sequences of the same places, both in order, are the same.
proof fn lemma_same_arrangement(
    p: Seq<int>,
    q: Seq<int>,
    n: int,
    le: spec_fn(int, int) -> bool,
)
    requires
        p.to_multiset() == q.to_multiset(),
        forall|i: int, j: int| 0 <= i < j < p.len() ==> first(le, #[trigger] p[i], #[trigger] p[j]),
        forall|i: int, j: int| 0 <= i < j < q.len() ==> first(le, #[trigger] q[i], #[trigger] q[j]),
    ensures
        p == q,
    decreases p.len(),
{
    p.to_multiset_ensures();
    q.to_multiset_ensures();
    if p.len() == 0 {
        assert(p =~= q);
    } else {
        let a = p.last();
        let b = q.last();
        assert(p.contains(a) && q.contains(b));
        lemma_same_members(p, q, a);
        lemma_same_members(q, p, b);
        let i = choose|i: int| 0 <= i < q.len() && q[i] == a;
        let j = choose|j: int| 0 <= j < p.len() && p[j] == b;
        if a != b {
            assert(first(le, q[i], q[q.len() - 1]));
            assert(first(le, p[j], p[p.len() - 1]));
        }
        assert(p =~= p.drop_last().push(a));
        assert(q =~= q.drop_last().push(b));
        p.drop_last().to_multiset_ensures();
        q.drop_last().to_multiset_ensures();
        assert(p.drop_last().to_multiset() =~= p.to_multiset().remove(a));
        assert(q.drop_last().to_multiset() =~= q.to_multiset().remove(b));
        lemma_same_arrangement(p.drop_last(), q.drop_last(), n, le);
    }
}

/// There is one stable arrangement.
pub proof fn lemma_arrangement_is(p: Seq<int>, n: int, le: spec_fn(int, int) -> bool)
    requires
        is_arrangement(p, n, le),
    ensures
        arrangement(n, le) == p,
{
    lemma_same_arrangement(arrangement(n, le), p, n, le);
}

/// The number of places at the front of an arrangement that do not come after `x`.
proof fn lemma_front(p: Seq<int>, x: int, n: int, le: spec_fn(int, int) -> bool) -> (k: int)
    requires
        total(n, le),
        0 <= x < n,
        forall|i: int| 0 <= i < p.len() ==> 0 <= #[trigger] p[i] < n,
        forall|i: int, j: int| 0 <= i < j < p.len() ==> first(le, #[trigger] p[i], #[trigger] p[j]),
    ensures
        0 <= k <= p.len(),
        forall|i: int| 0 <= i < k ==> le(#[trigger] p[i], x),
        forall|i: int| k <= i < p.len() ==> !le(#[trigger] p[i], x),
    decreases p.len(),
{
    if p.len() == 0 {
        0
    } else {
        let last = p.len() - 1;
        if le(p[last], x) {
            assert forall|i: int| 0 <= i < p.len() implies le(#[trigger] p[i], x) by {
                if i < last {
                    assert(first(le, p[i], p[last]));
                    assert(le(p[i], p[last]) && le(p[last], x));
                }
            }
            p.len() as int
        } else {
            let rest = p.drop_last();
            assert forall|i: int| 0 <= i < rest.len() implies 0 <= #[trigger] rest[i] < n by {
                assert(rest[i] == p[i]);
            }
            let k = lemma_front(rest, x, n, le);
            assert forall|i: int| 0 <= i < k implies le(#[trigger] p[i], x) by {
                assert(rest[i] == p[i]);
            }
            assert forall|i: int| k <= i < p.len() implies !le(#[trigger] p[i], x) by {
                if i < last {
                    assert(rest[i] == p[i]);
                }
            }
            k
        }
    }
}

/// Where the ranking is total there is a stable arrangement.
pub proof fn lemma_arrangement_exists(n: int, le: spec_fn(int, int) -> bool)
    requires
        n >= 0,
        total(n, le),
    ensures
        is_arrangement(arrangement(n, le), n, le),
    decreases n,
{
    if n == 0 {
        assert(places(0, 0) =~= Seq::<int>::empty());
        assert(is_arrangement(places(0, 0), 0, le));
    } else {
        let m = n - 1;
        lemma_arrangement_exists(m, le);
        let p = arrangement(m, le);
        lemma_places(p, m);
        let k = lemma_front(p, m, n, le);
        let q = p.insert(k, m);
        assert forall|i: int, j: int| 0 <= i < j < q.len() implies first(
            le,
            #[trigger] q[i],
            #[trigger] q[j],
        ) by {
            let a = if i < k {
                i
            } else {
                i - 1
            };
            let b = if j < k {
                j
            } else {
                j - 1
            };
            if i != k {
                assert(q[i] == p[a]);
            }
            if j != k {
                assert(q[j] == p[b]);
            }
            if i == k {
                assert(le(q[j], m) || le(m, q[j]));
            }
        }
        assert(places(0, n) =~= places(0, m).push(m));
        places(0, m).to_multiset_ensures();
        p.to_multiset_ensures();
        assert(q.to_multiset() =~= p.to_multiset().insert(m)) by {
            let (front, back) = (p.take(k), p.skip(k));
            assert(q =~= front.push(m) + back);
            assert(p =~= front + back);
            front.to_multiset_ensures();
            vstd::seq_lib::lemma_multiset_commutative(front, back);
            vstd::seq_lib::lemma_multiset_commutative(front.push(m), back);
        }
        assert(is_arrangement(q, n, le));
    }
}

/// An arrangement loses no member of a sequence and doubles none.
pub proof fn lemma_arranged_multiset<T>(s: Seq<T>, p: Seq<int>)
    requires
        p.to_multiset() == places(0, s.len() as int).to_multiset(),
    ensures
        arranged(s, p).to_multiset() == s.to_multiset(),
{
    let f = |acc: vstd::multiset::Multiset<T>, i: int| acc.insert(s[i]);
    let none = vstd::multiset::Multiset::<T>::empty();
    assert forall|x: int, y: int, v: vstd::multiset::Multiset<T>| #[trigger]
        f(f(v, x), y) == f(f(v, y), x) by {
        assert(f(f(v, x), y) =~= f(f(v, y), x));
    }
    let all = places(0, s.len() as int);
    vstd::seq_lib::lemma_fold_left_permutation(p, all, f, none);
    lemma_fold_is_multiset(s, p);
    lemma_fold_is_multiset(s, all);
    assert(arranged(s, all) =~= s);
}

proof fn lemma_fold_is_multiset<T>(s: Seq<T>, p: Seq<int>)
    ensures
        arranged(s, p).to_multiset() == p.fold_left(
            vstd::multiset::Multiset::<T>::empty(),
            |acc: vstd::multiset::Multiset<T>, i: int| acc.insert(s[i]),
        ),
    decreases p.len(),
{
    arranged(s, p).to_multiset_ensures();
    if p.len() > 0 {
        let rest = p.drop_last();
        lemma_fold_is_multiset(s, rest);
        arranged(s, rest).to_multiset_ensures();
        assert(arranged(s, p) =~= arranged(s, rest).push(s[p.last()]));
    } else {
        assert(arranged(s, p).to_multiset() =~= vstd::multiset::Multiset::<T>::empty());
    }
}

/// Something that ranks the places of a sequence.
pub trait Ranking {
    /// How many places there are.
    spec fn size(&self) -> int;

    /// Whether one place does not come after another.
    spec fn le(&self) -> spec_fn(int, int) -> bool;

    /// The ranking is one.
    proof fn lemma_total(&self)
        ensures
            total(self.size(), self.le()),
    ;

    /// Whether place `i` does not come after place `j`.
    fn not_after(&self, i: usize, j: usize) -> (r: bool)
        requires
            i < self.size(),
            j < self.size(),
        ensures
            r == (self.le())(i as int, j as int),
    ;
}

/// Places as mathematical integers.
pub open spec fn ints(v: Seq<usize>) -> Seq<int> {
    Seq::new(v.len(), |i: int| v[i] as int)
}

spec fn in_order(p: Seq<int>, le: spec_fn(int, int) -> bool) -> bool {
    forall|i: int, j: int| 0 <= i < j < p.len() ==> first(le, #[trigger] p[i], #[trigger] p[j])
}

spec fn within(p: Seq<int>, a: int, b: int) -> bool {
    forall|i: int| 0 <= i < p.len() ==> a <= #[trigger] p[i] < b
}

/// Sorts the places from `from` up to `to`.
fn sort_places<R: Ranking>(ranking: &R, from: usize, to: usize) -> (r: Vec<usize>)
    requires
        from <= to <= ranking.size(),
    ensures
        ints(r@).to_multiset() == places(from as int, to as int).to_multiset(),
        in_order(ints(r@), ranking.le()),
        within(ints(r@), from as int, to as int),
    decreases to - from,
{
    if to - from < 2 {
        let mut out: Vec<usize> = Vec::new();
        if from < to {
            out.push(from);
        }
        proof {
            assert(ints(out@) =~= places(from as int, to as int));
        }
        return out;
    }
    let mid: usize = from + (to - from) / 2;
    let a: Vec<usize> = sort_places(ranking, from, mid);
    let b: Vec<usize> = sort_places(ranking, mid, to);
    let out: Vec<usize> = merge_places(ranking, &a, &b, mid);
    proof {
        vstd::seq_lib::lemma_multiset_commutative(
            places(from as int, mid as int),
            places(mid as int, to as int),
        );
        assert(places(from as int, mid as int) + places(mid as int, to as int) =~= places(
            from as int,
            to as int,
        ));
        let r = ints(out@);
        r.to_multiset_ensures();
        places(from as int, to as int).to_multiset_ensures();
        assert forall|i: int| 0 <= i < r.len() implies from <= #[trigger] r[i] < to by {
            assert(r.contains(r[i]));
            lemma_same_members(r, places(from as int, to as int), r[i]);
        }
    }
    out
}

/// Puts two sorted runs of places together; those of the first all stand before those of the second.
fn merge_places<R: Ranking>(ranking: &R, a: &Vec<usize>, b: &Vec<usize>, mid: usize) -> (r: Vec<usize>)
    requires
        mid <= ranking.size(),
        in_order(ints(a@), ranking.le()),
        in_order(ints(b@), ranking.le()),
        within(ints(a@), 0, mid as int),
        within(ints(b@), mid as int, ranking.size()),
    ensures
        ints(r@).to_multiset() == ints(a@).to_multiset().add(ints(b@).to_multiset()),
        in_order(ints(r@), ranking.le()),
{
    let ghost le = ranking.le();
    let ghost n = ranking.size();
    let ghost x = ints(a@);
    let ghost y = ints(b@);
    proof {
        ranking.lemma_total();
    }
    let mut out: Vec<usize> = Vec::new();
    let mut i: usize = 0;
    let mut j: usize = 0;
    proof {
        assert(ints(out@) =~= Seq::<int>::empty());
        assert(x.take(0) =~= Seq::<int>::empty());
        assert(y.take(0) =~= Seq::<int>::empty());
        assert(ints(out@).to_multiset() =~= x.take(0).to_multiset().add(y.take(0).to_multiset()))
            by {
            Seq::<int>::empty().to_multiset_ensures();
        }
    }
    while i < a.len() || j < b.len()
        invariant
            le == ranking.le(),
            n == ranking.size(),
            total(n, le),
            x == ints(a@),
            y == ints(b@),
            i <= x.len(),
            j <= y.len(),
            mid <= n,
            in_order(x, le),
            in_order(y, le),
            within(x, 0, mid as int),
            within(y, mid as int, n),
            within(ints(out@), 0, n),
            ints(out@).to_multiset() == x.take(i as int).to_multiset().add(
                y.take(j as int).to_multiset(),
            ),
            in_order(ints(out@), le),
            forall|k: int, l: int|
                0 <= k < out@.len() && i <= l < x.len() ==> first(
                    le,
                    #[trigger] ints(out@)[k],
                    #[trigger] x[l],
                ),
            forall|k: int, l: int|
                0 <= k < out@.len() && j <= l < y.len() ==> first(
                    le,
                    #[trigger] ints(out@)[k],
                    #[trigger] y[l],
                ),
        decreases x.len() - i + y.len() - j,
    {
        let ghost before = ints(out@);
        let from_a: bool = if i >= a.len() {
            false
        } else if j >= b.len() {
            true
        } else {
            assert(x[i as int] < mid <= y[j as int] < n);
            ranking.not_after(a[i], b[j])
        };
        proof {
            x.take(i as int).to_multiset_ensures();
            y.take(j as int).to_multiset_ensures();
            before.to_multiset_ensures();
        }
        if from_a {
            let ghost v = x[i as int];
            out.push(a[i]);
            proof {
                assert(ints(out@) =~= before.push(v));
                assert(x.take(i + 1) =~= x.take(i as int).push(v));
                assert(ints(out@).to_multiset() =~= x.take(i + 1).to_multiset().add(
                    y.take(j as int).to_multiset(),
                ));
                assert forall|l: int| j <= l < y.len() implies first(le, v, #[trigger] y[l]) by {
                    assert(v < mid <= y[l]);
                    if l > j {
                        assert(first(le, y[j as int], y[l]));
                    }
                    assert(le(v, y[j as int]) && le(y[j as int], y[l]));
                }
            }
            i = i + 1;
        } else {
            let ghost v = y[j as int];
            out.push(b[j]);
            proof {
                assert(ints(out@) =~= before.push(v));
                assert(y.take(j + 1) =~= y.take(j as int).push(v));
                assert(ints(out@).to_multiset() =~= x.take(i as int).to_multiset().add(
                    y.take(j + 1).to_multiset(),
                ));
                assert forall|l: int| i <= l < x.len() implies first(le, v, #[trigger] x[l]) by {
                    let w = x[i as int];
                    assert(0 <= w < mid <= v < n);
                    assert(0 <= x[l] < mid);
                    if l > i {
                        assert(first(le, w, x[l]));
                    }
                    assert(le(w, v) || le(v, w));
                    assert(le(v, w));
                    assert(le(w, w) || le(w, w));
                    assert(le(w, x[l]));
                    assert(le(v, x[l]));
                    if le(x[l], v) {
                        assert(le(w, x[l]) && le(x[l], v));
                        assert(le(w, v));
                    }
                }
            }
            j = j + 1;
        }
        proof {
            let now = ints(out@);
            assert forall|k: int| 0 <= k < now.len() implies 0 <= #[trigger] now[k] < n by {
                if k < before.len() {
                    assert(now[k] == before[k]);
                }
            }
            assert forall|k: int, l: int| 0 <= k < l < now.len() implies first(
                le,
                #[trigger] now[k],
                #[trigger] now[l],
            ) by {
                assert(now[k] == before[k]);
                if l < before.len() {
                    assert(now[l] == before[l]);
                }
            }
        }
    }
    proof {
        assert(x.take(i as int) =~= x);
        assert(y.take(j as int) =~= y);
    }
    out
}

/// The stable arrangement of the places that are ranked.
pub fn sort<R: Ranking>(ranking: &R, n: usize) -> (r: Vec<usize>)
    requires
        n == ranking.size(),
    ensures
        ints(r@) == arrangement(n as int, ranking.le()),
        is_arrangement(ints(r@), n as int, ranking.le()),
        r@.len() == n,
        forall|i: int| 0 <= i < n ==> #[trigger] r@[i] < n,
{
    let r: Vec<usize> = sort_places(ranking, 0, n);
    proof {
        lemma_arrangement_is(ints(r@), n as int, ranking.le());
        lemma_places(ints(r@), n as int);
        assert forall|i: int| 0 <= i < n implies #[trigger] r@[i] < n by {
            assert(ints(r@)[i] == r@[i]);
        }
    }
    r
}

} // verus!
