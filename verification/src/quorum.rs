//! The agreement of copies of a partial result.

use crate::combine::{Accum, KahanSum, Partial, PartialView};
use crate::float;
use crate::float::{Float, QUIET};
use crate::query::Agg;
use crate::table;
use crate::table::Duplicate;
use vstd::prelude::*;

verus! {

/// A number as it goes over the wire, where all that is not finite is one.
pub open spec fn wire_float(f: Float) -> Float {
    if f.mag() < float::INFINITE {
        f
    } else {
        Float { bits: QUIET }
    }
}

pub open spec fn wire_sum(k: KahanSum) -> KahanSum {
    KahanSum { sum: wire_float(k.sum), comp: wire_float(k.comp) }
}

/// A number that may be missing as it goes over the wire, where one that is not finite is missing.
pub open spec fn wire_known(f: Option<Float>) -> Option<Float> {
    match f {
        Some(x) => if x.mag() < float::INFINITE {
            Some(x)
        } else {
            None
        },
        None => None,
    }
}

/// A state as it goes over the wire.
pub open spec fn wire(a: Accum) -> Accum {
    match a {
        Accum::Sum(k) => Accum::Sum(wire_sum(k)),
        Accum::Min(m) => Accum::Min(wire_known(m)),
        Accum::Max(m) => Accum::Max(wire_known(m)),
        Accum::Avg { sum, count } => Accum::Avg { sum: wire_sum(sum), count },
        _ => a,
    }
}

pub open spec fn wire_states(s: Seq<Accum>) -> Seq<Accum> {
    Seq::new(s.len(), |i: int| wire(s[i]))
}

/// A partial result as it goes over the wire.
pub open spec fn wire_form(p: PartialView) -> PartialView {
    PartialView {
        aggregates: p.aggregates,
        groups: Map::new(
            |k: Seq<Seq<char>>| p.groups.dom().contains(k),
            |k: Seq<Seq<char>>| wire_states(p.groups[k]),
        ),
    }
}

/// Two copies agree: they are the same over the wire.
pub open spec fn agree(a: PartialView, b: PartialView) -> bool {
    wire_form(a) == wire_form(b)
}

/// How many of the first `n` copies agree with `p`.
pub open spec fn votes(copies: Seq<PartialView>, p: PartialView, n: nat) -> nat
    decreases n,
{
    if n == 0 {
        0
    } else {
        votes(copies, p, (n - 1) as nat) + (if agree(p, copies[n - 1]) {
            1nat
        } else {
            0nat
        })
    }
}

/// The votes for copy `i`.
pub open spec fn support(copies: Seq<PartialView>, i: int) -> nat {
    votes(copies, copies[i], copies.len())
}

/// Copy `w` has the most votes, and is the first that has so many.
pub open spec fn is_winner(copies: Seq<PartialView>, w: int) -> bool {
    &&& 0 <= w < copies.len()
    &&& forall|i: int| 0 <= i < copies.len() ==> #[trigger] support(copies, i) <= support(copies, w)
    &&& forall|i: int| 0 <= i < w ==> #[trigger] support(copies, i) < support(copies, w)
}

/// The first of the copies with the most votes.
pub open spec fn winner(copies: Seq<PartialView>) -> int {
    choose|w: int| is_winner(copies, w)
}

/// How many copies must agree: all, or as many as the quorum asks for, however few there are.
pub open spec fn needed(copies: nat, quorum: usize) -> nat {
    if quorum == 0 {
        copies
    } else {
        quorum as nat
    }
}

/// Why no copy is accepted.
#[derive(Debug, Clone, Copy, PartialEq, Eq, Structural)]
pub enum QuorumError {
    /// There are no copies.
    NoCopies,
    /// The best agreement, among how many copies, and how many are needed.
    Disagreed { best: usize, copies: usize, need: usize },
}

/// The copy that is accepted.
pub open spec fn accepted(copies: Seq<PartialView>, quorum: usize) -> Result<PartialView, QuorumError> {
    if copies.len() == 0 {
        Err(QuorumError::NoCopies)
    } else {
        let w = winner(copies);
        if support(copies, w) >= needed(copies.len(), quorum) {
            Ok(copies[w])
        } else {
            Err(
                QuorumError::Disagreed {
                    best: support(copies, w) as usize,
                    copies: copies.len() as usize,
                    need: needed(copies.len(), quorum) as usize,
                },
            )
        }
    }
}

/// A number as it goes over the wire.
fn to_wire_float(f: Float) -> (r: Float)
    ensures
        r == wire_float(f),
{
    if f.is_finite() {
        f
    } else {
        Float { bits: QUIET }
    }
}

fn to_wire_known(f: Option<Float>) -> (r: Option<Float>)
    ensures
        r == wire_known(f),
{
    match f {
        Some(x) => if x.is_finite() {
            Some(x)
        } else {
            None
        },
        None => None,
    }
}

/// A state as it goes over the wire.
fn to_wire(a: Accum) -> (r: Accum)
    ensures
        r == wire(a),
{
    match a {
        Accum::Sum(k) => Accum::Sum(
            KahanSum { sum: to_wire_float(k.sum), comp: to_wire_float(k.comp) },
        ),
        Accum::Min(m) => Accum::Min(to_wire_known(m)),
        Accum::Max(m) => Accum::Max(to_wire_known(m)),
        Accum::Avg { sum, count } => Accum::Avg {
            sum: KahanSum { sum: to_wire_float(sum.sum), comp: to_wire_float(sum.comp) },
            count,
        },
        _ => a,
    }
}

/// Whether two aggregates are the same.
fn same_aggregate(a: &Agg, b: &Agg) -> (r: bool)
    ensures
        r == (a.deep_view() == b.deep_view()),
{
    match (a, b) {
        (Agg::Count, Agg::Count) => true,
        (Agg::Sum(x), Agg::Sum(y)) => *x == *y,
        (Agg::Min(x), Agg::Min(y)) => *x == *y,
        (Agg::Max(x), Agg::Max(y)) => *x == *y,
        (Agg::Avg(x), Agg::Avg(y)) => *x == *y,
        _ => false,
    }
}

fn same_aggregates(a: &Vec<Agg>, b: &Vec<Agg>) -> (r: bool)
    ensures
        r == (a.deep_view() == b.deep_view()),
{
    if a.len() != b.len() {
        assert(a.deep_view().len() != b.deep_view().len());
        return false;
    }
    let mut i: usize = 0;
    while i < a.len()
        invariant
            i <= a@.len() == b@.len(),
            forall|j: int| 0 <= j < i ==> a@[j].deep_view() == (#[trigger] b@[j]).deep_view(),
        decreases a@.len() - i,
    {
        if !same_aggregate(&a[i], &b[i]) {
            assert(a.deep_view()[i as int] != b.deep_view()[i as int]);
            return false;
        }
        i = i + 1;
    }
    assert(a.deep_view() =~= b.deep_view());
    true
}

/// Whether the states of two groups are the same over the wire.
fn same_states(a: &Vec<Accum>, b: &Vec<Accum>) -> (r: bool)
    ensures
        r == (wire_states(a.deep_view()) == wire_states(b.deep_view())),
{
    if a.len() != b.len() {
        assert(wire_states(a.deep_view()).len() != wire_states(b.deep_view()).len());
        return false;
    }
    let mut i: usize = 0;
    while i < a.len()
        invariant
            i <= a@.len() == b@.len(),
            forall|j: int| 0 <= j < i ==> wire(a@[j]) == wire(#[trigger] b@[j]),
        decreases a@.len() - i,
    {
        if to_wire(a[i]) != to_wire(b[i]) {
            assert(wire_states(a.deep_view())[i as int] != wire_states(b.deep_view())[i as int]);
            return false;
        }
        i = i + 1;
    }
    assert(wire_states(a.deep_view()) =~= wire_states(b.deep_view()));
    true
}

/// Whether two keys are the same.
fn same_key(a: &Vec<String>, b: &Vec<String>) -> (r: bool)
    ensures
        r == (a.deep_view() == b.deep_view()),
{
    if a.len() != b.len() {
        assert(a.deep_view().len() != b.deep_view().len());
        return false;
    }
    let mut i: usize = 0;
    while i < a.len()
        invariant
            i <= a@.len() == b@.len(),
            forall|j: int| 0 <= j < i ==> a@[j]@ == (#[trigger] b@[j])@,
        decreases a@.len() - i,
    {
        if a[i] != b[i] {
            assert(a.deep_view()[i as int] != b.deep_view()[i as int]);
            return false;
        }
        i = i + 1;
    }
    assert(a.deep_view() =~= b.deep_view());
    true
}

/// Whether two copies agree.
fn copies_agree(a: &Partial, b: &Partial) -> (r: bool)
    ensures
        r == agree(a.deep_view(), b.deep_view()),
{
    let ghost x = wire_form(a.deep_view());
    let ghost y = wire_form(b.deep_view());
    if !same_aggregates(&a.aggregates, &b.aggregates) {
        return false;
    }
    let n: usize = a.groups.len();
    let m: usize = b.groups.len();
    proof {
        assert(x.groups.dom() =~= a.groups.contents().dom());
        assert(y.groups.dom() =~= b.groups.contents().dom());
    }
    if n != m {
        return false;
    }
    let ghost keys = a.groups.keys();
    let mut i: usize = 0;
    while i < n
        invariant
            i <= n == keys.len(),
            keys == a.groups.keys(),
            b.groups.keys().len() == n,
            keys == table::listing::<Vec<String>>(a.groups.contents().dom()),
            b.groups.keys() == table::listing::<Vec<String>>(b.groups.contents().dom()),
            table::lists::<Vec<String>>(keys, a.groups.contents().dom()),
            table::lists::<Vec<String>>(b.groups.keys(), b.groups.contents().dom()),
            forall|j: int|
                0 <= j < n ==> a.groups.contents().dom().contains(#[trigger] a.groups.keys()[j])
                    && a.groups.contents()[a.groups.keys()[j]] == a.groups.values()[j],
            forall|j: int|
                0 <= j < n ==> b.groups.contents().dom().contains(#[trigger] b.groups.keys()[j])
                    && b.groups.contents()[b.groups.keys()[j]] == b.groups.values()[j],
            x == wire_form(a.deep_view()),
            y == wire_form(b.deep_view()),
            x.groups.dom() == a.groups.contents().dom(),
            y.groups.dom() == b.groups.contents().dom(),
            forall|j: int| 0 <= j < i ==> keys[j] == #[trigger] b.groups.keys()[j],
            forall|j: int| 0 <= j < i ==> x.groups[keys[j]] == y.groups[#[trigger] keys[j]],
        decreases n - i,
    {
        let ghost k = keys[i as int];
        proof {
            assert(a.groups.contents()[a.groups.keys()[i as int]] == a.groups.values()[i as int]);
            assert(b.groups.contents()[b.groups.keys()[i as int]] == b.groups.values()[i as int]);
        }
        if !same_key(a.groups.key_at(i), b.groups.key_at(i)) {
            assert(keys != b.groups.keys());
            return false;
        }
        if !same_states(a.groups.value_at(i), b.groups.value_at(i)) {
            assert(x.groups[k] != y.groups[k]);
            return false;
        }
        i = i + 1;
    }
    proof {
        assert(keys =~= b.groups.keys());
        assert forall|k: Seq<Seq<char>>|
            (x.groups.dom().contains(k) <==> y.groups.dom().contains(k)) && (x.groups.dom().contains(k)
                ==> x.groups[k] == #[trigger] y.groups[k]) by {
            assert(keys.contains(k) <==> a.groups.contents().dom().contains(k));
            if keys.contains(k) {
                let j = choose|j: int| 0 <= j < keys.len() && keys[j] == k;
                assert(x.groups[keys[j]] == y.groups[keys[j]]);
                assert(b.groups.contents().dom().contains(b.groups.keys()[j]));
            }
            assert(b.groups.keys().contains(k) <==> b.groups.contents().dom().contains(k));
        }
        assert(x.groups =~= y.groups);
    }
    true
}


/// The partial results of copies.
pub open spec fn results(copies: Seq<(Seq<char>, PartialView)>) -> Seq<PartialView> {
    Seq::new(copies.len(), |i: int| copies[i].1)
}

proof fn lemma_votes_bound(copies: Seq<PartialView>, p: PartialView, n: nat)
    ensures
        votes(copies, p, n) <= n,
    decreases n,
{
    if n > 0 {
        lemma_votes_bound(copies, p, (n - 1) as nat);
    }
}

/// A copy has no more votes than there are copies.
pub proof fn lemma_support_bound(copies: Seq<PartialView>, i: int)
    ensures
        support(copies, i) <= copies.len(),
{
    lemma_votes_bound(copies, copies[i], copies.len());
}

/// The votes for copy `i`.
fn count_votes(copies: &Vec<(String, Partial)>, i: usize) -> (r: usize)
    requires
        i < copies@.len(),
    ensures
        r == support(results(copies.deep_view()), i as int),
        r <= copies@.len(),
{
    let ghost all = results(copies.deep_view());
    let mut count: usize = 0;
    let mut j: usize = 0;
    while j < copies.len()
        invariant
            i < copies@.len(),
            j <= copies@.len(),
            all == results(copies.deep_view()),
            count == votes(all, all[i as int], j as nat),
            count <= j,
        decreases copies@.len() - j,
    {
        proof {
            assert(all[i as int] == copies@[i as int].1.deep_view());
            assert(all[j as int] == copies@[j as int].1.deep_view());
        }
        if copies_agree(&copies[i].1, &copies[j].1) {
            count = count + 1;
        }
        j = j + 1;
    }
    count
}

proof fn lemma_winner_is(copies: Seq<PartialView>, w: int)
    requires
        is_winner(copies, w),
    ensures
        winner(copies) == w,
{
    let v = winner(copies);
    assert(is_winner(copies, v));
    if v < w {
        assert(support(copies, v) < support(copies, w));
        assert(support(copies, w) <= support(copies, v));
    }
    if w < v {
        assert(support(copies, w) < support(copies, v));
        assert(support(copies, v) <= support(copies, w));
    }
}

/// Among the first `n` copies one has the most votes and is the first that has so many.
proof fn lemma_leader(copies: Seq<PartialView>, n: int) -> (w: int)
    requires
        0 < n <= copies.len(),
    ensures
        0 <= w < n,
        forall|i: int| 0 <= i < n ==> #[trigger] support(copies, i) <= support(copies, w),
        forall|i: int| 0 <= i < w ==> #[trigger] support(copies, i) < support(copies, w),
    decreases n,
{
    if n == 1 {
        0
    } else {
        let w = lemma_leader(copies, n - 1);
        if support(copies, n - 1) > support(copies, w) {
            n - 1
        } else {
            w
        }
    }
}

/// There is a winner.
pub proof fn lemma_winner(copies: Seq<PartialView>)
    requires
        copies.len() > 0,
    ensures
        is_winner(copies, winner(copies)),
{
    let w = lemma_leader(copies, copies.len() as int);
    assert(is_winner(copies, w));
}

/// What a result stands for.
pub open spec fn quorum_outcome(r: Result<Partial, QuorumError>) -> Result<PartialView, QuorumError> {
    match r {
        Ok(p) => Ok(p.deep_view()),
        Err(e) => Err(e),
    }
}

/// The first copy that agrees with `p`.
pub open spec fn first_agreeing(copies: Seq<PartialView>, p: PartialView) -> int
    decreases copies.len(),
{
    if copies.len() == 0 || agree(p, copies[0]) {
        0
    } else {
        1 + first_agreeing(copies.skip(1), p)
    }
}

proof fn lemma_first_agreeing(copies: Seq<PartialView>, p: PartialView, w: int)
    requires
        0 <= w < copies.len(),
        agree(p, copies[w]),
        forall|i: int| 0 <= i < w ==> !agree(p, #[trigger] copies[i]),
    ensures
        first_agreeing(copies, p) == w,
    decreases copies.len(),
{
    if w > 0 {
        let rest = copies.skip(1);
        assert(!agree(p, copies[0]));
        assert forall|i: int| 0 <= i < w - 1 implies !agree(p, #[trigger] rest[i]) by {
            assert(rest[i] == copies[i + 1]);
        }
        lemma_first_agreeing(rest, p, w - 1);
    }
}

/// The winner is the first copy that agrees with it.
pub proof fn lemma_winner_agrees_first(copies: Seq<PartialView>)
    requires
        copies.len() > 0,
    ensures
        0 <= winner(copies) < copies.len(),
        first_agreeing(copies, copies[winner(copies)]) == winner(copies),
{
    lemma_winner(copies);
    let w = winner(copies);
    assert forall|i: int| 0 <= i < w implies !agree(copies[w], #[trigger] copies[i]) by {
        if agree(copies[w], copies[i]) {
            lemma_same_votes(copies, copies[w], copies[i], copies.len());
            assert(support(copies, i) < support(copies, w));
        }
    }
    lemma_first_agreeing(copies, copies[w], w);
}

/// The copy that is accepted: the first of those that agree with the most others, if enough do.
pub fn select_quorum(copies: &Vec<(String, Partial)>, quorum: usize) -> (r: Result<
    Partial,
    QuorumError,
>)
    ensures
        quorum_outcome(r) == accepted(results(copies.deep_view()), quorum),
{
    match select_copy(copies, quorum) {
        Ok(i) => Ok(copies[i].1.duplicate()),
        Err(e) => Err(e),
    }
}

/// The place of the copy that is accepted.
pub fn select_copy(copies: &Vec<(String, Partial)>, quorum: usize) -> (r: Result<usize, QuorumError>)
    ensures
        r matches Ok(i) ==> i < copies@.len() && accepted(results(copies.deep_view()), quorum) == Ok::<
            PartialView,
            QuorumError,
        >(copies@[i as int].1.deep_view()) && i == first_agreeing(
            results(copies.deep_view()),
            copies@[i as int].1.deep_view(),
        ),
        r matches Err(e) ==> accepted(results(copies.deep_view()), quorum) == Err::<
            PartialView,
            QuorumError,
        >(e),
{
    let n: usize = copies.len();
    if n == 0 {
        return Err(QuorumError::NoCopies);
    }
    let ghost all = results(copies.deep_view());
    let need: usize = if quorum == 0 {
        n
    } else {
        quorum
    };
    let mut best: usize = 0;
    let mut count: usize = count_votes(copies, 0);
    let mut i: usize = 1;
    while i < n
        invariant
            n == copies@.len(),
            all == results(copies.deep_view()),
            best < i <= n,
            count == support(all, best as int),
            forall|j: int| 0 <= j < i ==> #[trigger] support(all, j) <= count,
            forall|j: int| 0 <= j < best ==> #[trigger] support(all, j) < count,
        decreases n - i,
    {
        let c: usize = count_votes(copies, i);
        if c > count {
            best = i;
            count = c;
        }
        i = i + 1;
    }
    proof {
        assert(is_winner(all, best as int));
        lemma_winner_is(all, best as int);
        lemma_winner_agrees_first(all);
        assert(all[best as int] == copies@[best as int].1.deep_view());
    }
    if count >= need {
        Ok(best)
    } else {
        Err(QuorumError::Disagreed { best: count, copies: n, need })
    }
}

/// How many of the first `n` copies do not agree with `p`.
proof fn lemma_votes_split(copies: Seq<PartialView>, p: PartialView, q: PartialView, n: nat)
    requires
        !agree(p, q),
    ensures
        votes(copies, p, n) + votes(copies, q, n) <= n,
    decreases n,
{
    if n > 0 {
        lemma_votes_split(copies, p, q, (n - 1) as nat);
    }
}

proof fn lemma_same_votes(copies: Seq<PartialView>, p: PartialView, q: PartialView, n: nat)
    requires
        agree(p, q),
    ensures
        votes(copies, p, n) == votes(copies, q, n),
    decreases n,
{
    if n > 0 {
        lemma_same_votes(copies, p, q, (n - 1) as nat);
    }
}

/// Where more than half of the copies agree with the honest one, and so many are enough, a copy that
/// agrees with it is accepted, whatever the others say.
pub proof fn lemma_majority_wins(copies: Seq<PartialView>, quorum: usize, honest: PartialView)
    requires
        2 * votes(copies, honest, copies.len()) > copies.len(),
        votes(copies, honest, copies.len()) >= needed(copies.len(), quorum),
    ensures
        accepted(copies, quorum) is Ok,
        agree(accepted(copies, quorum)->Ok_0, honest),
{
    lemma_votes_bound(copies, honest, copies.len());
    lemma_winner(copies);
    let w = winner(copies);
    lemma_some_agrees(copies, honest, copies.len());
    let i = choose|i: int| 0 <= i < copies.len() && agree(honest, #[trigger] copies[i]);
    lemma_same_votes(copies, honest, copies[i], copies.len());
    assert(support(copies, i) <= support(copies, w));
    if !agree(copies[w], honest) {
        lemma_votes_split(copies, copies[w], honest, copies.len());
    }
}

proof fn lemma_some_agrees(copies: Seq<PartialView>, p: PartialView, n: nat)
    requires
        votes(copies, p, n) > 0,
        n <= copies.len(),
    ensures
        exists|i: int| 0 <= i < n && agree(p, #[trigger] copies[i]),
    decreases n,
{
    if agree(p, copies[n - 1]) {
    } else {
        lemma_some_agrees(copies, p, (n - 1) as nat);
    }
}

proof fn lemma_all_agree(copies: Seq<PartialView>, p: PartialView, n: nat, i: int)
    requires
        votes(copies, p, n) == n,
        0 <= i < n <= copies.len(),
    ensures
        agree(p, copies[i]),
    decreases n,
{
    lemma_votes_bound(copies, p, (n - 1) as nat);
    if i < n - 1 {
        lemma_all_agree(copies, p, (n - 1) as nat, i);
    }
}

/// Where all copies must agree, one that is accepted agrees with every other: a single host that
/// lies is found out.
pub proof fn lemma_unanimity(copies: Seq<PartialView>, i: int)
    requires
        accepted(copies, 0) is Ok,
        0 <= i < copies.len(),
    ensures
        agree(accepted(copies, 0)->Ok_0, copies[i]),
{
    lemma_winner(copies);
    let w = winner(copies);
    lemma_votes_bound(copies, copies[w], copies.len());
    lemma_all_agree(copies, copies[w], copies.len(), i);
}

} // verus!
