//! Finite maps kept in the order of their keys.

use crate::text;
use vstd::prelude::*;

verus! {

/// A type whose values can be copied.
pub trait Duplicate: DeepView + Sized {
    /// A value like this one.
    fn duplicate(&self) -> (r: Self)
        ensures
            r.deep_view() == self.deep_view(),
    ;
}

impl Duplicate for String {
    fn duplicate(&self) -> (r: Self) {
        self.clone()
    }
}

impl<T: Duplicate> Duplicate for Vec<T> {
    fn duplicate(&self) -> (r: Self) {
        copy_slice(self.as_slice())
    }
}

impl Duplicate for usize {
    fn duplicate(&self) -> (r: Self) {
        *self
    }
}

impl<A: Duplicate, B: Duplicate> Duplicate for (A, B) {
    fn duplicate(&self) -> (r: Self) {
        (self.0.duplicate(), self.1.duplicate())
    }
}

impl<A: Duplicate> Duplicate for Option<A> {
    fn duplicate(&self) -> (r: Self) {
        match self {
            Some(a) => Some(a.duplicate()),
            None => None,
        }
    }
}

/// Values like these.
pub fn copy_slice<T: Duplicate>(v: &[T]) -> (r: Vec<T>)
    ensures
        r.deep_view() == v.deep_view(),
{
    let mut out: Vec<T> = Vec::new();
    let mut i: usize = 0;
    while i < v.len()
        invariant
            i <= v@.len(),
            out@.len() == i,
            forall|j: int| 0 <= j < i ==> (#[trigger] out@[j]).deep_view() == v@[j].deep_view(),
        decreases v@.len() - i,
    {
        out.push(v[i].duplicate());
        i = i + 1;
    }
    proof {
        assert(out.deep_view() =~= v.deep_view());
    }
    out
}

/// A type of keys with a strict total order.
pub trait Key: Duplicate {
    /// `a` comes before `b`.
    spec fn earlier(a: Self::V, b: Self::V) -> bool;

    proof fn lemma_earlier(a: Self::V, b: Self::V, c: Self::V)
        ensures
            !Self::earlier(a, a),
            Self::earlier(a, b) && Self::earlier(b, c) ==> Self::earlier(a, c),
            a == b || Self::earlier(a, b) || Self::earlier(b, a),
    ;

    /// Whether the key comes before another.
    fn comes_before(&self, other: &Self) -> (r: bool)
        ensures
            r == Self::earlier(self.deep_view(), other.deep_view()),
    ;
}

impl Key for String {
    open spec fn earlier(a: Seq<char>, b: Seq<char>) -> bool {
        text::precedes(a, b)
    }

    proof fn lemma_earlier(a: Seq<char>, b: Seq<char>, c: Seq<char>) {
        text::lemma_order(a, b, c);
    }

    fn comes_before(&self, other: &Self) -> (r: bool) {
        text::before(self.as_str(), other.as_str())
    }
}

/// `a` comes before `b` in the order of lists of strings: by the first entry in which they differ, a
/// prefix before what it is a prefix of.
pub open spec fn list_precedes(a: Seq<Seq<char>>, b: Seq<Seq<char>>) -> bool
    decreases a.len(),
{
    if b.len() == 0 {
        false
    } else if a.len() == 0 {
        true
    } else if a[0] != b[0] {
        text::precedes(a[0], b[0])
    } else {
        list_precedes(a.skip(1), b.skip(1))
    }
}

proof fn lemma_list_order(a: Seq<Seq<char>>, b: Seq<Seq<char>>, c: Seq<Seq<char>>)
    ensures
        !list_precedes(a, a),
        list_precedes(a, b) && list_precedes(b, c) ==> list_precedes(a, c),
        a == b || list_precedes(a, b) || list_precedes(b, a),
    decreases a.len() + b.len() + c.len(),
{
    if a.len() > 0 {
        let bb = if b.len() > 0 {
            b.skip(1)
        } else {
            b
        };
        let cc = if c.len() > 0 {
            c.skip(1)
        } else {
            c
        };
        lemma_list_order(a.skip(1), bb, cc);
        if b.len() > 0 {
            text::lemma_order(a[0], b[0], a[0]);
            text::lemma_order(b[0], a[0], b[0]);
            if c.len() > 0 {
                text::lemma_order(a[0], b[0], c[0]);
                text::lemma_order(a[0], c[0], b[0]);
                text::lemma_order(b[0], c[0], a[0]);
            }
            if a[0] == b[0] && a.skip(1) == b.skip(1) {
                assert(a =~= seq![a[0]] + a.skip(1));
                assert(b =~= seq![b[0]] + b.skip(1));
                assert(a == b);
            }
        }
    } else if b.len() == 0 {
        assert(a =~= b);
    }
}

proof fn lemma_list_same_start(a: Seq<Seq<char>>, b: Seq<Seq<char>>, n: nat)
    requires
        n <= a.len(),
        n <= b.len(),
        forall|i: int| 0 <= i < n ==> a[i] == b[i],
    ensures
        list_precedes(a, b) == list_precedes(a.skip(n as int), b.skip(n as int)),
    decreases n,
{
    if n == 0 {
        assert(a.skip(0) =~= a);
        assert(b.skip(0) =~= b);
    } else {
        assert(a[0] == b[0]);
        assert forall|i: int| 0 <= i < n - 1 implies a.skip(1)[i] == b.skip(1)[i] by {
            assert(a[i + 1] == b[i + 1]);
        }
        lemma_list_same_start(a.skip(1), b.skip(1), (n - 1) as nat);
        assert(a.skip(1).skip(n - 1) =~= a.skip(n as int));
        assert(b.skip(1).skip(n - 1) =~= b.skip(n as int));
    }
}

impl Key for Vec<String> {
    open spec fn earlier(a: Seq<Seq<char>>, b: Seq<Seq<char>>) -> bool {
        list_precedes(a, b)
    }

    proof fn lemma_earlier(a: Seq<Seq<char>>, b: Seq<Seq<char>>, c: Seq<Seq<char>>) {
        lemma_list_order(a, b, c);
    }

    fn comes_before(&self, other: &Self) -> (r: bool) {
        let ghost a = self.deep_view();
        let ghost b = other.deep_view();
        let mut i: usize = 0;
        while i < self.len() && i < other.len() && self[i] == other[i]
            invariant
                i <= self@.len(),
                i <= other@.len(),
                a == self.deep_view(),
                b == other.deep_view(),
                forall|j: int| 0 <= j < i ==> a[j] == b[j],
            decreases self@.len() - i,
        {
            i = i + 1;
        }
        proof {
            lemma_list_same_start(a, b, i as nat);
            let p = a.skip(i as int);
            let q = b.skip(i as int);
            if i < a.len() && i < b.len() {
                assert(p[0] == a[i as int] && q[0] == b[i as int]);
            }
        }
        if i >= other.len() {
            false
        } else if i >= self.len() {
            true
        } else {
            text::before(self[i].as_str(), other[i].as_str())
        }
    }
}

/// `s` is in strictly increasing order.
pub open spec fn increasing<K: Key>(s: Seq<K::V>) -> bool {
    forall|i: int, j: int| 0 <= i < j < s.len() ==> K::earlier(#[trigger] s[i], #[trigger] s[j])
}

/// `s` lists the members of `d`, in order and each once.
pub open spec fn lists<K: Key>(s: Seq<K::V>, d: Set<K::V>) -> bool {
    increasing::<K>(s) && forall|k: K::V| s.contains(k) <==> d.contains(k)
}

/// The members of `d` in order.
pub open spec fn listing<K: Key>(d: Set<K::V>) -> Seq<K::V> {
    choose|s: Seq<K::V>| lists::<K>(s, d)
}

/// A map from keys to values, its entries in the order of their keys.
#[verifier::reject_recursive_types(K)]
#[derive(Debug, PartialEq)]
pub struct Table<K: Key, V: DeepView> {
    entries: Vec<(K, V)>,
}

impl<K: Key, V: DeepView> Table<K, V> {
    /// The keys in order.
    pub closed spec fn keys(self) -> Seq<K::V> {
        Seq::new(self.entries@.len(), |i: int| self.entries@[i].0.deep_view())
    }

    /// The values in the order of their keys.
    pub closed spec fn values(self) -> Seq<V::V> {
        Seq::new(self.entries@.len(), |i: int| self.entries@[i].1.deep_view())
    }

    #[verifier::type_invariant]
    spec fn in_order(self) -> bool {
        increasing::<K>(self.keys())
    }

    /// What the table maps each key to.
    pub open spec fn contents(self) -> Map<K::V, V::V> {
        Map::new(
            |k: K::V| self.keys().contains(k),
            |k: K::V| self.values()[self.keys().index_of(k)],
        )
    }
}

impl<K: Key, V: DeepView> DeepView for Table<K, V> {
    type V = Map<K::V, V::V>;

    open spec fn deep_view(&self) -> Map<K::V, V::V> {
        self.contents()
    }
}

/// In an increasing sequence each member stands at one place.
pub proof fn lemma_place<K: Key>(s: Seq<K::V>, i: int)
    requires
        increasing::<K>(s),
        0 <= i < s.len(),
    ensures
        s.index_of(s[i]) == i,
{
    let j = s.index_of(s[i]);
    assert(s.contains(s[i]));
    assert(0 <= j < s.len() && s[j] == s[i]);
    K::lemma_earlier(s[i], s[i], s[i]);
}

/// Two listings of one set are the same.
pub proof fn lemma_lists_unique<K: Key>(a: Seq<K::V>, b: Seq<K::V>, d: Set<K::V>)
    requires
        lists::<K>(a, d),
        lists::<K>(b, d),
    ensures
        a == b,
    decreases a.len(),
{
    if a.len() == 0 {
        if b.len() > 0 {
            assert(b.contains(b[0]));
            assert(a.contains(b[0]));
        }
        assert(a =~= b);
    } else {
        let n = a.len() - 1;
        assert(a.contains(a[n]));
        assert(b.contains(a[n]));
        let m = b.len() - 1;
        assert(b.contains(b[m]));
        assert(a.contains(b[m]));
        let i = a.index_of(b[m]);
        let j = b.index_of(a[n]);
        assert(a[i] == b[m] && b[j] == a[n]);
        K::lemma_earlier(a[n], b[m], a[n]);
        assert(a[n] == b[m]);
        let e = d.remove(a[n]);
        assert forall|k: K::V| a.drop_last().contains(k) <==> e.contains(k) by {
            lemma_without_last::<K>(a, k);
        }
        assert forall|k: K::V| b.drop_last().contains(k) <==> e.contains(k) by {
            lemma_without_last::<K>(b, k);
        }
        lemma_lists_unique::<K>(a.drop_last(), b.drop_last(), e);
        assert(a =~= a.drop_last().push(a[n]));
        assert(b =~= b.drop_last().push(b[m]));
    }
}

/// What can be listed is finite.
pub proof fn lemma_lists_finite<K: Key>(s: Seq<K::V>, d: Set<K::V>)
    requires
        lists::<K>(s, d),
    ensures
        d.finite(),
{
    assert(d =~= s.to_set());
    vstd::seq_lib::seq_to_set_is_finite(s);
}

/// A finite set can be listed.
pub proof fn lemma_listing<K: Key>(d: Set<K::V>)
    requires
        d.finite(),
    ensures
        lists::<K>(listing::<K>(d), d),
    decreases d.len(),
{
    if d.len() == 0 {
        let none = Seq::<K::V>::empty();
        assert(d =~= Set::empty());
        assert(lists::<K>(none, d));
    } else {
        let a = d.choose();
        let e = d.remove(a);
        lemma_listing::<K>(e);
        let s = listing::<K>(e);
        assert(!s.contains(a));
        let p = lemma_gap::<K>(s, a);
        let t = s.insert(p, a);
        assert(increasing::<K>(t));
        assert forall|k: K::V| t.contains(k) <==> d.contains(k) by {
            if t.contains(k) {
                let i = t.index_of(k);
                assert(t[i] == k);
                if i < p {
                    assert(s.contains(s[i]));
                } else if i > p {
                    assert(s.contains(s[i - 1]));
                }
            }
            if d.contains(k) {
                if k == a {
                    assert(t[p] == k);
                } else {
                    assert(e.contains(k));
                    let i = s.index_of(k);
                    assert(s[i] == k);
                    if i < p {
                        assert(t[i] == k);
                    } else {
                        assert(t[i + 1] == k);
                    }
                }
            }
        }
        assert(lists::<K>(t, d));
    }
}

/// Where a key that is not listed has its place.
proof fn lemma_gap<K: Key>(s: Seq<K::V>, a: K::V) -> (p: int)
    requires
        increasing::<K>(s),
        !s.contains(a),
    ensures
        0 <= p <= s.len(),
        forall|i: int| 0 <= i < p ==> K::earlier(#[trigger] s[i], a),
        forall|i: int| p <= i < s.len() ==> K::earlier(a, #[trigger] s[i]),
    decreases s.len(),
{
    if s.len() == 0 {
        0
    } else {
        let z = s.last();
        assert(s[s.len() - 1] == z);
        K::lemma_earlier(z, a, z);
        if K::earlier(z, a) {
            assert forall|i: int| 0 <= i < s.len() implies K::earlier(#[trigger] s[i], a) by {
                if i < s.len() - 1 {
                    K::lemma_earlier(s[i], s[s.len() - 1], a);
                }
            }
            s.len() as int
        } else {
            let rest = s.drop_last();
            assert(!rest.contains(a)) by {
                if rest.contains(a) {
                    let i = rest.index_of(a);
                    assert(s[i] == a);
                }
            }
            let p = lemma_gap::<K>(rest, a);
            assert forall|i: int| 0 <= i < p implies K::earlier(#[trigger] s[i], a) by {
                assert(s[i] == rest[i]);
            }
            assert forall|i: int| p <= i < s.len() implies K::earlier(a, #[trigger] s[i]) by {
                if i < s.len() - 1 {
                    assert(s[i] == rest[i]);
                }
            }
            p
        }
    }
}

proof fn lemma_without_last<K: Key>(s: Seq<K::V>, k: K::V)
    requires
        increasing::<K>(s),
        s.len() > 0,
    ensures
        s.drop_last().contains(k) <==> s.contains(k) && k != s.last(),
{
    if s.contains(k) && k != s.last() {
        let i = s.index_of(k);
        assert(s.drop_last()[i] == k);
    }
    if s.drop_last().contains(k) {
        let i = s.drop_last().index_of(k);
        assert(s[i] == k);
        K::lemma_earlier(k, k, k);
    }
}

impl<K: Key, V: DeepView> Table<K, V> {
    /// The table without entries.
    pub fn new() -> (r: Self)
        ensures
            r.keys() == Seq::<K::V>::empty(),
            r.contents() == Map::<K::V, V::V>::empty(),
    {
        let r = Table { entries: Vec::new() };
        proof {
            assert(r.keys() =~= Seq::<K::V>::empty());
            assert(r.contents() =~= Map::<K::V, V::V>::empty());
        }
        r
    }

    /// The number of entries. They stand in the order of their keys.
    pub fn len(&self) -> (n: usize)
        ensures
            n == self.keys().len(),
            self.values().len() == self.keys().len(),
            lists::<K>(self.keys(), self.contents().dom()),
            self.keys() == listing::<K>(self.contents().dom()),
            forall|i: int| 0 <= i < n ==> self.contents().dom().contains(#[trigger] self.keys()[i])
                && self.contents()[self.keys()[i]] == self.values()[i],
    {
        proof {
            use_type_invariant(self);
            assert(lists::<K>(self.keys(), self.contents().dom()));
            lemma_lists_unique::<K>(
                self.keys(),
                listing::<K>(self.contents().dom()),
                self.contents().dom(),
            );
            assert forall|i: int| 0 <= i < self.keys().len() implies self.contents().dom().contains(
                #[trigger] self.keys()[i],
            ) && self.contents()[self.keys()[i]] == self.values()[i] by {
                lemma_place::<K>(self.keys(), i);
            }
        }
        self.entries.len()
    }

    /// The key of entry `i`.
    pub fn key_at(&self, i: usize) -> (r: &K)
        requires
            i < self.keys().len(),
        ensures
            r.deep_view() == self.keys()[i as int],
    {
        &self.entries[i].0
    }

    /// The value of entry `i`.
    pub fn value_at(&self, i: usize) -> (r: &V)
        requires
            i < self.keys().len(),
        ensures
            r.deep_view() == self.values()[i as int],
    {
        &self.entries[i].1
    }

    /// The first place whose key does not come before `key`.
    fn find(&self, key: &K) -> (i: usize)
        ensures
            i <= self.keys().len(),
            forall|j: int| 0 <= j < i ==> K::earlier(#[trigger] self.keys()[j], key.deep_view()),
            forall|j: int|
                i <= j < self.keys().len() ==> !K::earlier(#[trigger] self.keys()[j], key.deep_view()),
            self.contents().dom().contains(key.deep_view()) <==> i < self.keys().len()
                && self.keys()[i as int] == key.deep_view(),
    {
        proof {
            use_type_invariant(self);
        }
        let ghost ks = self.keys();
        let ghost k = key.deep_view();
        let mut low: usize = 0;
        let mut high: usize = self.entries.len();
        while low < high
            invariant
                low <= high <= ks.len(),
                ks == self.keys(),
                k == key.deep_view(),
                increasing::<K>(ks),
                forall|j: int| 0 <= j < low ==> K::earlier(#[trigger] ks[j], k),
                forall|j: int| high <= j < ks.len() ==> !K::earlier(#[trigger] ks[j], k),
            decreases high - low,
        {
            let mid: usize = low + (high - low) / 2;
            if self.entries[mid].0.comes_before(key) {
                proof {
                    assert forall|j: int| 0 <= j < mid + 1 implies K::earlier(#[trigger] ks[j], k) by {
                        K::lemma_earlier(ks[j], ks[mid as int], k);
                    }
                }
                low = mid + 1;
            } else {
                proof {
                    assert forall|j: int| mid <= j < ks.len() implies !K::earlier(
                        #[trigger] ks[j],
                        k,
                    ) by {
                        K::lemma_earlier(ks[mid as int], ks[j], k);
                    }
                }
                high = mid;
            }
        }
        proof {
            if ks.contains(k) {
                let j = ks.index_of(k);
                assert(ks[j] == k);
                K::lemma_earlier(k, k, k);
                if low < j {
                    K::lemma_earlier(ks[low as int], k, k);
                }
            }
        }
        low
    }

    /// The place of a key among the entries.
    pub fn position(&self, key: &K) -> (r: Option<usize>)
        ensures
            r is Some <==> self.contents().dom().contains(key.deep_view()),
            r matches Some(i) ==> i < self.keys().len() && self.keys()[i as int] == key.deep_view()
                && self.contents()[key.deep_view()] == self.values()[i as int],
    {
        let n: usize = self.len();
        let i: usize = self.find(key);
        if i < n && !key.comes_before(&self.entries[i].0) {
            proof {
                K::lemma_earlier(key.deep_view(), self.keys()[i as int], key.deep_view());
            }
            Some(i)
        } else {
            proof {
                K::lemma_earlier(key.deep_view(), key.deep_view(), key.deep_view());
            }
            None
        }
    }

    /// The value of a key.
    pub fn get(&self, key: &K) -> (r: Option<&V>)
        ensures
            r is Some <==> self.contents().dom().contains(key.deep_view()),
            r matches Some(v) ==> v.deep_view() == self.contents()[key.deep_view()],
    {
        match self.position(key) {
            Some(i) => Some(&self.entries[i].1),
            None => None,
        }
    }

    /// Maps `key` to `value`, in place of what it was mapped to before.
    pub fn insert(&mut self, key: K, value: V)
        ensures
            final(self).contents() == old(self).contents().insert(key.deep_view(), value.deep_view()),
    {
        let ghost was = *self;
        let ghost k = key.deep_view();
        let ghost v = value.deep_view();
        proof {
            use_type_invariant(&*self);
        }
        let n: usize = self.len();
        let i: usize = self.find(&key);
        if i < n && !key.comes_before(&self.entries[i].0) {
            proof {
                K::lemma_earlier(k, self.keys()[i as int], k);
            }
            let mut entries: Vec<(K, V)> = Vec::new();
            std::mem::swap(&mut entries, &mut self.entries);
            entries.set(i, (key, value));
            proof {
                let now = Table { entries };
                assert(now.keys() =~= was.keys());
                assert(now.values() =~= was.values().update(i as int, v));
                lemma_replaced(was, now, i as int, v);
            }
            self.entries = entries;
        } else {
            proof {
                K::lemma_earlier(k, k, k);
            }
            proof {
                assert forall|j: int| i <= j < was.keys().len() implies K::earlier(
                    k,
                    #[trigger] was.keys()[j],
                ) by {
                    K::lemma_earlier(k, was.keys()[j], k);
                    K::lemma_earlier(k, was.keys()[i as int], was.keys()[j]);
                }
            }
            let mut entries: Vec<(K, V)> = Vec::new();
            std::mem::swap(&mut entries, &mut self.entries);
            entries.insert(i, (key, value));
            proof {
                let now = Table { entries };
                assert(now.keys() =~= was.keys().insert(i as int, k));
                assert(now.values() =~= was.values().insert(i as int, v));
                lemma_inserted(was, now, i as int, k, v);
            }
            self.entries = entries;
        }
    }

    /// Puts `value` in place of the value of entry `i`, which is handed out.
    pub fn exchange(&mut self, i: usize, value: V) -> (r: V)
        requires
            i < old(self).keys().len(),
        ensures
            final(self).keys() == old(self).keys(),
            r.deep_view() == old(self).contents()[old(self).keys()[i as int]],
            final(self).contents() == old(self).contents().insert(
                old(self).keys()[i as int],
                value.deep_view(),
            ),
    {
        let ghost was = *self;
        proof {
            use_type_invariant(&*self);
            lemma_place::<K>(was.keys(), i as int);
        }
        let n: usize = self.len();
        let mut entries: Vec<(K, V)> = Vec::new();
        std::mem::swap(&mut entries, &mut self.entries);
        let (key, former) = entries.remove(i);
        let ghost v = value.deep_view();
        entries.insert(i, (key, value));
        proof {
            let now = Table { entries };
            assert(now.keys() =~= was.keys());
            assert(now.values() =~= was.values().update(i as int, v));
            lemma_replaced(was, now, i as int, v);
        }
        self.entries = entries;
        former
    }

    /// Takes `key` out, handing out the value that it had.
    pub fn remove(&mut self, key: &K) -> (r: Option<V>)
        ensures
            final(self).contents() == old(self).contents().remove(key.deep_view()),
            r is Some <==> old(self).contents().dom().contains(key.deep_view()),
            r matches Some(v) ==> v.deep_view() == old(self).contents()[key.deep_view()],
    {
        let ghost was = *self;
        let ghost k = key.deep_view();
        proof {
            use_type_invariant(&*self);
        }
        match self.position(key) {
            Some(i) => {
                let mut entries: Vec<(K, V)> = Vec::new();
                std::mem::swap(&mut entries, &mut self.entries);
                let (_, former) = entries.remove(i);
                proof {
                    let now = Table { entries };
                    assert(now.keys() =~= was.keys().remove(i as int));
                    assert(now.values() =~= was.values().remove(i as int));
                    lemma_removed(was, now, i as int);
                }
                self.entries = entries;
                Some(former)
            },
            None => {
                proof {
                    assert(was.contents().remove(k) =~= was.contents());
                }
                None
            },
        }
    }
}

impl<K: Key, V: Duplicate> Duplicate for Table<K, V> {
    fn duplicate(&self) -> (r: Self) {
        let n: usize = self.len();
        let mut out: Table<K, V> = Table::new();
        let mut i: usize = 0;
        while i < n
            invariant
                i <= n == self.keys().len(),
                lists::<K>(self.keys(), self.contents().dom()),
                forall|j: int| 0 <= j < n ==> self.contents().dom().contains(#[trigger] self.keys()[j])
                    && self.contents()[self.keys()[j]] == self.values()[j],
                forall|k: K::V|
                    out.contents().dom().contains(k) <==> self.keys().take(i as int).contains(k),
                forall|j: int|
                    0 <= j < i ==> out.contents()[#[trigger] self.keys()[j]] == self.values()[j],
            decreases n - i,
        {
            out.insert(self.key_at(i).duplicate(), self.value_at(i).duplicate());
            proof {
                assert(self.keys().take(i + 1) =~= self.keys().take(i as int).push(
                    self.keys()[i as int],
                ));
                assert forall|k: K::V|
                    out.contents().dom().contains(k) <==> self.keys().take(i + 1).contains(k) by {
                    let s = self.keys().take(i as int);
                    let x = self.keys()[i as int];
                    if s.push(x).contains(k) && k != x {
                        let j = s.push(x).index_of(k);
                        assert(s[j] == k);
                    }
                    if s.contains(k) {
                        let j = s.index_of(k);
                        assert(s.push(x)[j] == k);
                    }
                    assert(s.push(x)[i as int] == x);
                }
                assert forall|j: int| 0 <= j < i + 1 implies out.contents()[#[trigger] self.keys()[j]]
                    == self.values()[j] by {
                    if j < i {
                        K::lemma_earlier(self.keys()[j], self.keys()[j], self.keys()[j]);
                    }
                }
            }
            i = i + 1;
        }
        proof {
            assert(self.keys().take(n as int) =~= self.keys());
            assert forall|k: K::V| out.contents().dom().contains(k) implies out.contents()[k]
                == self.contents()[k] by {
                let j = self.keys().index_of(k);
                assert(self.keys()[j] == k);
            }
            assert(out.contents() =~= self.contents());
        }
        out
    }
}

impl<K: Key, V: Duplicate> Clone for Table<K, V> {
    fn clone(&self) -> (r: Self)
        ensures
            r.contents() == self.contents(),
    {
        self.duplicate()
    }
}

proof fn lemma_removed<K: Key, V: DeepView>(was: Table<K, V>, now: Table<K, V>, i: int)
    requires
        increasing::<K>(was.keys()),
        0 <= i < was.keys().len(),
        was.values().len() == was.keys().len(),
        now.keys() == was.keys().remove(i),
        now.values() == was.values().remove(i),
    ensures
        increasing::<K>(now.keys()),
        now.contents() == was.contents().remove(was.keys()[i]),
{
    let a = was.keys();
    let b = now.keys();
    let k = a[i];
    assert forall|p: int, q: int| 0 <= p < q < b.len() implies K::earlier(
        #[trigger] b[p],
        #[trigger] b[q],
    ) by {
        let pp = if p < i {
            p
        } else {
            p + 1
        };
        let qq = if q < i {
            q
        } else {
            q + 1
        };
        assert(b[p] == a[pp] && b[q] == a[qq]);
    }
    assert forall|x: K::V| now.contents().dom().contains(x) <==> was.contents().remove(
        k,
    ).dom().contains(x) by {
        if b.contains(x) {
            let j = b.index_of(x);
            let jj = if j < i {
                j
            } else {
                j + 1
            };
            assert(a[jj] == x);
            K::lemma_earlier(k, k, k);
        }
        if a.contains(x) && x != k {
            let j = a.index_of(x);
            let jj = if j < i {
                j
            } else {
                j - 1
            };
            assert(b[jj] == x);
        }
    }
    assert forall|x: K::V| now.contents().dom().contains(x) implies now.contents()[x]
        == was.contents().remove(k)[x] by {
        let j = b.index_of(x);
        assert(b[j] == x);
        let jj = if j < i {
            j
        } else {
            j + 1
        };
        assert(a[jj] == x);
        lemma_place::<K>(a, jj);
    }
    assert(now.contents() =~= was.contents().remove(k));
}

proof fn lemma_replaced<K: Key, V: DeepView>(was: Table<K, V>, now: Table<K, V>, i: int, v: V::V)
    requires
        increasing::<K>(was.keys()),
        0 <= i < was.keys().len(),
        now.keys() == was.keys(),
        was.values().len() == was.keys().len(),
        now.values() == was.values().update(i, v),
    ensures
        now.contents() == was.contents().insert(was.keys()[i], v),
{
    let k = was.keys()[i];
    lemma_place::<K>(was.keys(), i);
    assert(was.keys().contains(k));
    assert forall|x: K::V| now.contents().dom().contains(x) implies now.contents()[x]
        == was.contents().insert(k, v)[x] by {
        let j = was.keys().index_of(x);
        assert(was.keys()[j] == x);
    }
    assert(now.contents() =~= was.contents().insert(k, v));
}

proof fn lemma_inserted<K: Key, V: DeepView>(
    was: Table<K, V>,
    now: Table<K, V>,
    i: int,
    k: K::V,
    v: V::V,
)
    requires
        increasing::<K>(was.keys()),
        0 <= i <= was.keys().len(),
        was.values().len() == was.keys().len(),
        now.keys() == was.keys().insert(i, k),
        now.values() == was.values().insert(i, v),
        forall|j: int| 0 <= j < i ==> K::earlier(#[trigger] was.keys()[j], k),
        forall|j: int| i <= j < was.keys().len() ==> K::earlier(k, #[trigger] was.keys()[j]),
    ensures
        increasing::<K>(now.keys()),
        now.contents() == was.contents().insert(k, v),
{
    let a = was.keys();
    let b = now.keys();
    assert forall|p: int, q: int| 0 <= p < q < b.len() implies K::earlier(
        #[trigger] b[p],
        #[trigger] b[q],
    ) by {
        let pp = if p < i {
            p
        } else {
            p - 1
        };
        let qq = if q < i {
            q
        } else {
            q - 1
        };
        if p != i {
            assert(b[p] == a[pp]);
        }
        if q != i {
            assert(b[q] == a[qq]);
        }
    }
    assert forall|x: K::V| now.contents().dom().contains(x) <==> was.contents().insert(k, v).dom().contains(
        x,
    ) by {
        if a.contains(x) {
            let j = a.index_of(x);
            let jj = if j < i {
                j
            } else {
                j + 1
            };
            assert(b[jj] == x);
        }
        if b.contains(x) {
            let j = b.index_of(x);
            if j != i {
                let jj = if j < i {
                    j
                } else {
                    j - 1
                };
                assert(a[jj] == x);
            }
        }
        assert(b[i] == k);
    }
    assert forall|x: K::V| now.contents().dom().contains(x) implies now.contents()[x]
        == was.contents().insert(k, v)[x] by {
        let j = b.index_of(x);
        assert(b[j] == x);
        if j == i {
            assert(x == k);
        } else {
            let jj = if j < i {
                j
            } else {
                j - 1
            };
            assert(a[jj] == x);
            lemma_place::<K>(a, jj);
            K::lemma_earlier(k, k, k);
            assert(x != k);
        }
    }
    assert(now.contents() =~= was.contents().insert(k, v));
}

} // verus!
