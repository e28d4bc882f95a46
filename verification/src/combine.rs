//! Accumulators and partial results: the state of an aggregation, and how states are merged.

use crate::float;
use crate::float::{Float, SIGN};
use crate::json::{Json, JsonView, Num};
use crate::query::{Agg, AggView};
use crate::table;
use crate::table::{Duplicate, Table};
use vstd::prelude::*;

verus! {

/// A sum of floating-point numbers with the part that rounding took from it, after Neumaier.
#[derive(Debug, Clone, Copy, PartialEq, Eq, Structural)]
pub struct KahanSum {
    pub sum: Float,
    pub comp: Float,
}

/// Positive zero.
pub open spec fn zero_float() -> Float {
    Float { bits: 0 }
}

/// What rounding took from the sum of `a` and `b`.
pub open spec fn lost(a: Float, b: Float) -> Float {
    let t = float::sum_of(a, b);
    if a.mag() >= b.mag() {
        float::sum_of(float::difference(a, t), b)
    } else {
        float::sum_of(float::difference(b, t), a)
    }
}

impl KahanSum {
    /// The sum of no numbers.
    pub open spec fn nothing() -> KahanSum {
        KahanSum { sum: zero_float(), comp: zero_float() }
    }

    /// The sum with `v` added.
    pub open spec fn with(self, v: Float) -> KahanSum {
        KahanSum {
            sum: float::sum_of(self.sum, v),
            comp: float::sum_of(self.comp, lost(self.sum, v)),
        }
    }

    /// The sum of two sums.
    pub open spec fn joined(self, other: KahanSum) -> KahanSum {
        if other == KahanSum::nothing() {
            self
        } else if self == KahanSum::nothing() {
            other
        } else {
            KahanSum {
                sum: float::sum_of(self.sum, other.sum),
                comp: float::sum_of(
                    float::sum_of(self.comp, other.comp),
                    lost(self.sum, other.sum),
                ),
            }
        }
    }

    /// The number that the sum stands for.
    pub open spec fn total(self) -> Float {
        float::sum_of(self.sum, self.comp)
    }

    /// The sum of no numbers.
    pub fn zero() -> (r: KahanSum)
        ensures
            r == KahanSum::nothing(),
    {
        KahanSum { sum: Float { bits: 0 }, comp: Float { bits: 0 } }
    }

    /// Adds a number.
    pub fn add(&mut self, v: Float)
        ensures
            *final(self) == old(self).with(v),
    {
        let t: Float = self.sum.plus(v);
        let err: Float = what_is_lost(self.sum, v, t);
        self.comp = self.comp.plus(err);
        self.sum = t;
    }

    /// Adds another sum.
    pub fn merge(&mut self, other: KahanSum)
        ensures
            *final(self) == old(self).joined(other),
    {
        let nothing: KahanSum = KahanSum::zero();
        if other == nothing {
            return;
        }
        if *self == nothing {
            *self = other;
            return;
        }
        let t: Float = self.sum.plus(other.sum);
        let err: Float = what_is_lost(self.sum, other.sum, t);
        self.comp = self.comp.plus(other.comp).plus(err);
        self.sum = t;
    }

    /// The number that the sum stands for.
    pub fn value(&self) -> (r: Float)
        ensures
            r == self.total(),
    {
        self.sum.plus(self.comp)
    }
}

/// What rounding took from the sum of `a` and `b`, which is `t`.
fn what_is_lost(a: Float, b: Float, t: Float) -> (r: Float)
    requires
        t == float::sum_of(a, b),
    ensures
        r == lost(a, b),
{
    if a.bits % SIGN >= b.bits % SIGN {
        a.plus(t.negated()).plus(b)
    } else {
        b.plus(t.negated()).plus(a)
    }
}

/// The running state of one aggregate.
#[derive(Debug, Clone, Copy, PartialEq, Eq, Structural)]
pub enum Accum {
    /// The number of rows.
    Count(u64),
    /// The exact sum of integers.
    IntSum(i128),
    /// The sum of numbers of which one at least was no integer, or whose sum grew too large.
    Sum(KahanSum),
    /// The least number, if there was one.
    Min(Option<Float>),
    /// The greatest number, if there was one.
    Max(Option<Float>),
    /// The sum and the count of numbers, whose quotient is their mean.
    Avg { sum: KahanSum, count: u64 },
}

impl DeepView for Accum {
    type V = Accum;

    open spec fn deep_view(&self) -> Accum {
        *self
    }
}

impl Duplicate for Accum {
    fn duplicate(&self) -> (r: Self) {
        *self
    }
}

/// An integer sum as a floating-point one.
pub open spec fn promoted(i: int) -> KahanSum {
    KahanSum::nothing().with(float::nearest_int(i))
}

/// The lesser of two numbers, of which either may be missing.
pub open spec fn min_known(a: Option<Float>, b: Option<Float>) -> Option<Float> {
    match (a, b) {
        (Some(x), Some(y)) => Some(float::min_of(x, y)),
        (Some(x), None) => Some(x),
        (None, y) => y,
    }
}

/// The greater of two numbers, of which either may be missing.
pub open spec fn max_known(a: Option<Float>, b: Option<Float>) -> Option<Float> {
    match (a, b) {
        (Some(x), Some(y)) => Some(float::max_of(x, y)),
        (Some(x), None) => Some(x),
        (None, y) => y,
    }
}

/// `a + b`, or the greatest count where that is greater.
pub open spec fn count_sum(a: u64, b: u64) -> u64 {
    if a + b > u64::MAX {
        u64::MAX
    } else {
        (a + b) as u64
    }
}

/// Two states of one aggregate as one; where the two are not of one aggregate, the first.
pub open spec fn merged(a: Accum, b: Accum) -> Accum {
    match (a, b) {
        (Accum::Count(x), Accum::Count(y)) => Accum::Count(count_sum(x, y)),
        (Accum::IntSum(x), Accum::IntSum(y)) => if i128::MIN <= x + y <= i128::MAX {
            Accum::IntSum((x + y) as i128)
        } else {
            Accum::Sum(promoted(x as int).joined(promoted(y as int)))
        },
        (Accum::IntSum(x), Accum::Sum(y)) => if x == 0 {
            b
        } else {
            Accum::Sum(promoted(x as int).joined(y))
        },
        (Accum::Sum(x), Accum::IntSum(y)) => if y == 0 {
            a
        } else {
            Accum::Sum(x.joined(promoted(y as int)))
        },
        (Accum::Sum(x), Accum::Sum(y)) => Accum::Sum(x.joined(y)),
        (Accum::Min(x), Accum::Min(y)) => Accum::Min(min_known(x, y)),
        (Accum::Max(x), Accum::Max(y)) => Accum::Max(max_known(x, y)),
        (Accum::Avg { sum: x, count: m }, Accum::Avg { sum: y, count: n }) => Accum::Avg {
            sum: x.joined(y),
            count: count_sum(m, n),
        },
        _ => a,
    }
}

/// A floating-point number as a JSON value; one that JSON cannot write is null.
pub open spec fn float_json(f: Float) -> JsonView {
    if f.mag() < float::INFINITE {
        JsonView::Number(Num::Float(f))
    } else {
        JsonView::Null
    }
}

/// The output value of a state.
pub open spec fn final_value(a: Accum) -> JsonView {
    match a {
        Accum::Count(n) => JsonView::Number(Num::Int(n as i128)),
        Accum::IntSum(s) => JsonView::Number(Num::Int(s)),
        Accum::Sum(k) => float_json(k.total()),
        Accum::Min(Some(v)) => float_json(v),
        Accum::Max(Some(v)) => float_json(v),
        Accum::Min(None) => JsonView::Null,
        Accum::Max(None) => JsonView::Null,
        Accum::Avg { sum, count } => if count == 0 {
            JsonView::Null
        } else {
            float_json(float::quotient_of(sum.total(), float::nearest_int(count as int)))
        },
    }
}

/// A floating-point number as a JSON value; one that JSON cannot write is null.
pub fn json_float(f: Float) -> (r: Json)
    ensures
        r.deep_view() == float_json(f),
{
    if f.is_finite() {
        Json::Number(Num::Float(f))
    } else {
        Json::Null
    }
}

/// An integer sum as a floating-point one.
pub fn promote(i: i128) -> (r: KahanSum)
    ensures
        r == promoted(i as int),
{
    let mut k: KahanSum = KahanSum::zero();
    k.add(Float::nearest(i));
    k
}

impl Accum {
    /// Merges another state of the same aggregate into this one. A state of another aggregate is
    /// passed over.
    pub fn merge(&mut self, other: &Accum)
        ensures
            *final(self) == merged(*old(self), *other),
    {
        let a: Accum = *self;
        let r: Accum = match (a, *other) {
            (Accum::Count(x), Accum::Count(y)) => Accum::Count(x.saturating_add(y)),
            (Accum::IntSum(x), Accum::IntSum(y)) => match x.checked_add(y) {
                Some(t) => Accum::IntSum(t),
                None => {
                    let mut k: KahanSum = promote(x);
                    k.merge(promote(y));
                    Accum::Sum(k)
                },
            },
            (Accum::IntSum(x), Accum::Sum(y)) => {
                if x == 0 {
                    Accum::Sum(y)
                } else {
                    let mut k: KahanSum = promote(x);
                    k.merge(y);
                    Accum::Sum(k)
                }
            },
            (Accum::Sum(x), Accum::IntSum(y)) => {
                if y == 0 {
                    Accum::Sum(x)
                } else {
                    let mut k: KahanSum = x;
                    k.merge(promote(y));
                    Accum::Sum(k)
                }
            },
            (Accum::Sum(x), Accum::Sum(y)) => {
                let mut k: KahanSum = x;
                k.merge(y);
                Accum::Sum(k)
            },
            (Accum::Min(x), Accum::Min(y)) => Accum::Min(
                match (x, y) {
                    (Some(p), Some(q)) => Some(p.min(q)),
                    (Some(p), None) => Some(p),
                    (None, q) => q,
                },
            ),
            (Accum::Max(x), Accum::Max(y)) => Accum::Max(
                match (x, y) {
                    (Some(p), Some(q)) => Some(p.max(q)),
                    (Some(p), None) => Some(p),
                    (None, q) => q,
                },
            ),
            (Accum::Avg { sum: x, count: m }, Accum::Avg { sum: y, count: n }) => {
                let mut k: KahanSum = x;
                k.merge(y);
                Accum::Avg { sum: k, count: m.saturating_add(n) }
            },
            _ => a,
        };
        *self = r;
    }

    /// The output value.
    pub fn finalize_value(&self) -> (r: Json)
        ensures
            r.deep_view() == final_value(*self),
    {
        match self {
            Accum::Count(n) => Json::Number(Num::Int(*n as i128)),
            Accum::IntSum(s) => Json::Number(Num::Int(*s)),
            Accum::Sum(k) => json_float(k.value()),
            Accum::Min(Some(v)) => json_float(*v),
            Accum::Max(Some(v)) => json_float(*v),
            Accum::Min(None) => Json::Null,
            Accum::Max(None) => Json::Null,
            Accum::Avg { sum, count } => {
                if *count == 0 {
                    Json::Null
                } else {
                    json_float(sum.value().over(Float::nearest(*count as i128)))
                }
            },
        }
    }
}


/// One group of the result: its key, and its output values by their names.
#[derive(Debug, Clone, PartialEq)]
pub struct GroupResult {
    pub key: Vec<String>,
    pub values: Table<String, Json>,
}

/// What a [`GroupResult`] stands for.
pub struct GroupView {
    pub key: Seq<Seq<char>>,
    pub values: Map<Seq<char>, JsonView>,
}

impl DeepView for GroupResult {
    type V = GroupView;

    open spec fn deep_view(&self) -> GroupView {
        GroupView { key: self.key.deep_view(), values: self.values.contents() }
    }
}

impl Duplicate for GroupResult {
    fn duplicate(&self) -> (r: Self) {
        GroupResult { key: self.key.duplicate(), values: self.values.duplicate() }
    }
}

/// What the groups of a partial result stand for.
pub type GroupsView = Map<Seq<Seq<char>>, Seq<Accum>>;

/// A partial result: the aggregates, and for each group one state of each of them.
#[derive(Debug, Clone, PartialEq)]
pub struct Partial {
    pub aggregates: Vec<Agg>,
    pub groups: Table<Vec<String>, Vec<Accum>>,
}

/// What a [`Partial`] stands for.
pub struct PartialView {
    pub aggregates: Seq<AggView>,
    pub groups: GroupsView,
}

impl DeepView for Partial {
    type V = PartialView;

    open spec fn deep_view(&self) -> PartialView {
        PartialView { aggregates: self.aggregates.deep_view(), groups: self.groups.contents() }
    }
}

impl Duplicate for Partial {
    fn duplicate(&self) -> (r: Self) {
        Partial { aggregates: self.aggregates.duplicate(), groups: self.groups.duplicate() }
    }
}

/// The states of one group, merged place by place.
pub open spec fn merged_states(a: Seq<Accum>, b: Seq<Accum>) -> Seq<Accum> {
    Seq::new(
        a.len(),
        |i: int|
            if i < b.len() {
                merged(a[i], b[i])
            } else {
                a[i]
            },
    )
}

/// Two partial results as one: the states of a group that both have are merged, other groups are
/// carried over.
pub open spec fn merged_groups(a: GroupsView, b: GroupsView) -> GroupsView {
    Map::new(
        |k: Seq<Seq<char>>| a.dom().contains(k) || b.dom().contains(k),
        |k: Seq<Seq<char>>| merged_group(a, b, k),
    )
}

/// The states of one group of two partial results.
pub open spec fn merged_group(a: GroupsView, b: GroupsView, k: Seq<Seq<char>>) -> Seq<Accum> {
    if !b.dom().contains(k) {
        a[k]
    } else if !a.dom().contains(k) {
        b[k]
    } else {
        merged_states(a[k], b[k])
    }
}

/// Partial results merged one after another.
pub open spec fn reduced(parts: Seq<PartialView>) -> GroupsView
    decreases parts.len(),
{
    if parts.len() == 0 {
        Map::empty()
    } else {
        merged_groups(reduced(parts.drop_last()), parts.last().groups)
    }
}

/// The output values of the first `n` states of a group, by the names of their columns.
pub open spec fn named_values(aggregates: Seq<AggView>, states: Seq<Accum>, n: nat) -> Map<
    Seq<char>,
    JsonView,
>
    decreases n,
{
    if n == 0 {
        Map::empty()
    } else {
        named_values(aggregates, states, (n - 1) as nat).insert(
            aggregates[n - 1].column(),
            final_value(states[n - 1]),
        )
    }
}

pub open spec fn lesser(a: nat, b: nat) -> nat {
    if a < b {
        a
    } else {
        b
    }
}

/// The output of a partial result: its groups in the order of their keys.
pub open spec fn finalized(p: PartialView) -> Seq<GroupView> {
    let keys = table::listing::<Vec<String>>(p.groups.dom());
    Seq::new(
        keys.len(),
        |i: int|
            GroupView {
                key: keys[i],
                values: named_values(
                    p.aggregates,
                    p.groups[keys[i]],
                    lesser(p.aggregates.len(), p.groups[keys[i]].len()),
                ),
            },
    )
}

/// Merges the states of one group place by place.
fn merge_states(a: &mut Vec<Accum>, b: &Vec<Accum>)
    ensures
        final(a).deep_view() == merged_states(old(a).deep_view(), b.deep_view()),
{
    let ghost was = a.deep_view();
    let ghost with = b.deep_view();
    let n: usize = a.len();
    let mut i: usize = 0;
    while i < n && i < b.len()
        invariant
            i <= n == a@.len() == was.len(),
            i <= b@.len() == with.len(),
            with == b.deep_view(),
            forall|j: int| 0 <= j < i ==> a@[j] == merged(was[j], #[trigger] with[j]),
            forall|j: int| i <= j < n ==> a@[j] == #[trigger] was[j],
        decreases n - i,
    {
        let mut state: Accum = a[i];
        proof {
            assert(state == was[i as int]);
            assert(b@[i as int] == with[i as int]);
        }
        state.merge(&b[i]);
        a.set(i, state);
        i = i + 1;
    }
    proof {
        let now = a.deep_view();
        assert forall|j: int| 0 <= j < n implies now[j] == merged_states(was, with)[j] by {
            if j < i {
                assert(with[j] == with[j]);
            } else {
                assert(was[j] == was[j]);
            }
        }
        assert(now =~= merged_states(was, with));
    }
}

impl Partial {
    /// The partial result without groups.
    pub fn empty(aggregates: Vec<Agg>) -> (r: Partial)
        ensures
            r.deep_view() == (PartialView {
                aggregates: aggregates.deep_view(),
                groups: Map::empty(),
            }),
    {
        Partial { aggregates, groups: Table::new() }
    }

    /// Merges another partial result into this one.
    pub fn merge(&mut self, other: &Partial)
        ensures
            final(self).deep_view() == (PartialView {
                groups: merged_groups(old(self).deep_view().groups, other.deep_view().groups),
                ..old(self).deep_view()
            }),
    {
        let ghost was = self.groups.contents();
        let ghost with = other.groups.contents();
        let ghost names = self.aggregates.deep_view();
        let n: usize = other.groups.len();
        let ghost keys = other.groups.keys();
        let mut i: usize = 0;
        proof {
            assert(self.groups.contents() =~= part_merged(was, with, keys, 0));
        }
        while i < n
            invariant
                i <= n == keys.len(),
                keys == other.groups.keys(),
                other.groups.values().len() == n,
                table::increasing::<Vec<String>>(keys),
                with == other.groups.contents(),
                forall|j: int|
                    0 <= j < n ==> with.dom().contains(#[trigger] other.groups.keys()[j])
                        && with[other.groups.keys()[j]] == other.groups.values()[j],
                self.groups.contents() == part_merged(was, with, keys, i as int),
                self.aggregates.deep_view() == names,
            decreases n - i,
        {
            let key: &Vec<String> = other.groups.key_at(i);
            let states: &Vec<Accum> = other.groups.value_at(i);
            let ghost k = keys[i as int];
            proof {
                assert(with[other.groups.keys()[i as int]] == other.groups.values()[i as int]);
                table::lemma_place::<Vec<String>>(keys, i as int);
            }
            match self.groups.position(key) {
                Some(at) => {
                    let mut mine: Vec<Accum> = self.groups.exchange(at, Vec::new());
                    merge_states(&mut mine, states);
                    let _unused: Vec<Accum> = self.groups.exchange(at, mine);
                },
                None => {
                    self.groups.insert(key.duplicate(), states.duplicate());
                },
            }
            proof {
                lemma_part_merged(was, with, keys, i as int);
                assert(self.groups.contents() =~= part_merged(was, with, keys, i + 1));
            }
            i = i + 1;
        }
        proof {
            assert(keys.take(n as int) =~= keys);
            assert(self.groups.contents() =~= merged_groups(was, with));
        }
    }

    /// The output: the groups in the order of their keys, each with its named values.
    pub fn finalize(&self) -> (r: Vec<GroupResult>)
        ensures
            r.deep_view() == finalized(self.deep_view()),
    {
        let n: usize = self.groups.len();
        let ghost keys = self.groups.keys();
        let mut out: Vec<GroupResult> = Vec::new();
        let mut i: usize = 0;
        while i < n
            invariant
                i <= n == keys.len(),
                keys == self.groups.keys(),
                keys == table::listing::<Vec<String>>(self.groups.contents().dom()),
                forall|j: int|
                    0 <= j < n ==> self.groups.contents()[#[trigger] self.groups.keys()[j]]
                        == self.groups.values()[j],
                out@.len() == i,
                forall|j: int|
                    0 <= j < i ==> (#[trigger] out@[j]).deep_view() == finalized(self.deep_view())[j],
            decreases n - i,
        {
            proof {
                assert(self.groups.contents()[self.groups.keys()[i as int]]
                    == self.groups.values()[i as int]);
            }
            let values: Table<String, Json> = name_values(&self.aggregates, self.groups.value_at(i));
            out.push(GroupResult { key: self.groups.key_at(i).duplicate(), values });
            i = i + 1;
        }
        proof {
            assert(out.deep_view() =~= finalized(self.deep_view()));
        }
        out
    }
}

/// The output values of a group by the names of their columns.
fn name_values(aggregates: &Vec<Agg>, states: &Vec<Accum>) -> (r: Table<String, Json>)
    ensures
        r.contents() == named_values(
            aggregates.deep_view(),
            states.deep_view(),
            lesser(aggregates@.len(), states@.len()),
        ),
{
    let ghost names = aggregates.deep_view();
    let ghost all = states.deep_view();
    let mut values: Table<String, Json> = Table::new();
    let mut i: usize = 0;
    while i < aggregates.len() && i < states.len()
        invariant
            i <= aggregates@.len(),
            i <= states@.len(),
            names == aggregates.deep_view(),
            all == states.deep_view(),
            values.contents() == named_values(names, all, i as nat),
        decreases aggregates@.len() - i,
    {
        proof {
            assert(names[i as int] == aggregates@[i as int].deep_view());
            assert(all[i as int] == states@[i as int]);
        }
        values.insert(aggregates[i].output_name(), states[i].finalize_value());
        i = i + 1;
    }
    values
}

/// What merging comes to after the first `n` groups of the second partial result.
spec fn part_merged(a: GroupsView, b: GroupsView, keys: Seq<Seq<Seq<char>>>, n: int) -> GroupsView {
    Map::new(
        |k: Seq<Seq<char>>| a.dom().contains(k) || keys.take(n).contains(k),
        |k: Seq<Seq<char>>|
            if keys.take(n).contains(k) {
                merged_group(a, b, k)
            } else {
                a[k]
            },
    )
}

proof fn lemma_part_merged(a: GroupsView, b: GroupsView, keys: Seq<Seq<Seq<char>>>, n: int)
    requires
        0 <= n < keys.len(),
        table::increasing::<Vec<String>>(keys),
        b.dom().contains(keys[n]),
    ensures
        !keys.take(n).contains(keys[n]),
        forall|k: Seq<Seq<char>>| #[trigger]
            keys.take(n + 1).contains(k) <==> keys.take(n).contains(k) || k == keys[n],
        part_merged(a, b, keys, n + 1) == part_merged(a, b, keys, n).insert(
            keys[n],
            merged_group(a, b, keys[n]),
        ),
{
    let s = keys.take(n);
    assert(keys.take(n + 1) =~= s.push(keys[n]));
    if s.contains(keys[n]) {
        let j = choose|j: int| 0 <= j < s.len() && s[j] == keys[n];
        assert(keys[j] == keys[n]);
        table::lemma_place::<Vec<String>>(keys, j);
        table::lemma_place::<Vec<String>>(keys, n);
    }
    assert forall|k: Seq<Seq<char>>| #[trigger]
        keys.take(n + 1).contains(k) <==> s.contains(k) || k == keys[n] by {
        if s.contains(k) {
            assert(s.push(keys[n])[s.index_of(k)] == k);
        }
        assert(s.push(keys[n])[n] == keys[n]);
        if s.push(keys[n]).contains(k) && k != keys[n] {
            assert(s[s.push(keys[n]).index_of(k)] == k);
        }
    }
    assert(part_merged(a, b, keys, n + 1) =~= part_merged(a, b, keys, n).insert(
        keys[n],
        merged_group(a, b, keys[n]),
    ));
}

/// Merges partial results one after another.
pub fn reduce(aggregates: Vec<Agg>, parts: Vec<Partial>) -> (r: Partial)
    ensures
        r.deep_view() == (PartialView {
            aggregates: aggregates.deep_view(),
            groups: reduced(parts.deep_view()),
        }),
{
    let ghost all = parts.deep_view();
    let ghost names = aggregates.deep_view();
    let mut acc: Partial = Partial::empty(aggregates);
    let mut i: usize = 0;
    proof {
        assert(all.take(0) =~= Seq::<PartialView>::empty());
    }
    while i < parts.len()
        invariant
            i <= parts@.len(),
            all == parts.deep_view(),
            acc.deep_view() == (PartialView {
                aggregates: names,
                groups: reduced(all.take(i as int)),
            }),
        decreases parts@.len() - i,
    {
        acc.merge(&parts[i]);
        proof {
            assert(all.take(i + 1).drop_last() =~= all.take(i as int));
            assert(all.take(i + 1).last() == parts@[i as int].deep_view());
        }
        i = i + 1;
    }
    proof {
        assert(all.take(all.len() as int) =~= all);
    }
    acc
}

} // verus!
