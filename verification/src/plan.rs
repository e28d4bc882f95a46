//! Which host maps which shard, and which shards need not be mapped at all.
//!
//! Every shard ranks the hosts by a score of its own (rendezvous hashing). The first host of the
//! ranking gets the shard, the next ones stand in for it.

use crate::algebra;
use crate::dataset;
use crate::dataset::{RowView, Shard, ShardStats, ShardView, StatsView};
use crate::digest;
use crate::digest::score;
use crate::float;
use crate::float::{Float, COARSE, SIGN};
use crate::json::{Json, JsonView};
use crate::query;
use crate::query::{to_float, CmpOp, Predicate, PredicateView};
use crate::sort;
use crate::sort::{sort, Ranking};
use crate::table::{Duplicate, Table};
use crate::text;
use crate::text::before;
use vstd::prelude::*;
use vstd::string::*;
use vstd::utf8::*;

verus! {

/// `a` is not greater than `b`.
pub open spec fn at_most(a: Float, b: Float) -> bool {
    a.less(b) || a.same(b)
}

/// The number is so large that an integer next to it may have been rounded to it.
pub open spec fn is_coarse(f: Float) -> bool {
    f.mag() >= float::COARSE
}

/// A row whose value in a column lies in the range can meet a comparison with `v`. The ends of the
/// range and `v` are the nearest numbers to what they stand for, so where an end is coarse a value
/// beyond it may have been rounded to it.
pub open spec fn range_can_match(range: (Float, Float), op: CmpOp, v: Float) -> bool {
    match op {
        CmpOp::Gt => v.less(range.1) || (v.same(range.1) && is_coarse(v)),
        CmpOp::Ge => at_most(v, range.1),
        CmpOp::Lt => range.0.less(v) || (v.same(range.0) && is_coarse(v)),
        CmpOp::Le => at_most(range.0, v),
        CmpOp::Eq => at_most(range.0, v) && at_most(v, range.1),
        CmpOp::Ne => true,
    }
}

/// A row of a shard with these ranges can meet the condition, as far as the ranges tell. Only a
/// comparison of a column that has a range with a number rules rows out.
pub open spec fn can_match_spec(stats: StatsView, p: PredicateView) -> bool
    decreases p,
{
    match p {
        PredicateView::True => true,
        PredicateView::Not(_) => true,
        PredicateView::Or(a, b) => can_match_spec(stats, *a) || can_match_spec(stats, *b),
        PredicateView::And(a, b) => can_match_spec(stats, *a) && can_match_spec(stats, *b),
        PredicateView::Cmp { field, op, value } => match value {
            JsonView::Number(n) => stats.dom().contains(field) ==> range_can_match(
                stats[field],
                op,
                query::num_float(n),
            ),
            _ => true,
        },
    }
}

/// Whether a row of a shard can meet the condition; without ranges any can.
pub open spec fn shard_matches(stats: Option<StatsView>, p: PredicateView) -> bool {
    match stats {
        Some(s) => can_match_spec(s, p),
        None => true,
    }
}

fn is_at_most(a: Float, b: Float) -> (r: bool)
    ensures
        r == at_most(a, b),
{
    a.lt(b) || a.eq(b)
}

fn coarse(f: Float) -> (r: bool)
    ensures
        r == is_coarse(f),
{
    f.bits % SIGN >= COARSE
}

fn can_match(stats: &ShardStats, predicate: &Predicate) -> (r: bool)
    ensures
        r == can_match_spec(stats.deep_view(), predicate.deep_view()),
    decreases predicate,
{
    match predicate {
        Predicate::True => true,
        Predicate::Not(_) => true,
        Predicate::Or(a, b) => can_match(stats, a) || can_match(stats, b),
        Predicate::And(a, b) => can_match(stats, a) && can_match(stats, b),
        Predicate::Cmp { field, op, value } => match value {
            Json::Number(n) => match stats.numeric.get(field) {
                Some(range) => {
                    let v: Float = to_float(*n);
                    match op {
                        CmpOp::Gt => v.lt(range.1) || (v.eq(range.1) && coarse(v)),
                        CmpOp::Ge => is_at_most(v, range.1),
                        CmpOp::Lt => range.0.lt(v) || (v.eq(range.0) && coarse(v)),
                        CmpOp::Le => is_at_most(range.0, v),
                        CmpOp::Eq => is_at_most(range.0, v) && is_at_most(v, range.1),
                        CmpOp::Ne => true,
                    }
                },
                None => true,
            },
            _ => true,
        },
    }
}

/// Whether a shard can have a row that meets the condition, as far as the ranges of its columns
/// tell.
pub fn shard_can_match(stats: Option<&ShardStats>, predicate: &Predicate) -> (r: bool)
    ensures
        r == shard_matches(
            match stats {
                Some(s) => Some(s.deep_view()),
                None => None,
            },
            predicate.deep_view(),
        ),
{
    match stats {
        Some(s) => can_match(s, predicate),
        None => true,
    }
}

/// A number in a column lies within the range of the column.
proof fn lemma_in_range(rows: Seq<RowView>, name: Seq<char>, i: int)
    requires
        0 <= i < rows.len(),
        rows[i].dom().contains(name),
        query::float_value(rows[i][name].value) is Some,
        !query::float_value(rows[i][name].value)->0.is_nan_spec(),
        dataset::column(rows, name) is Range,
    ensures
        ({
            let v = query::float_value(rows[i][name].value)->0;
            let c = dataset::column(rows, name);
            at_most(c->Range_0, v) && at_most(v, c->Range_1)
        }),
    decreases rows.len(),
{
    if i < rows.len() - 1 {
        assert(rows.drop_last()[i] == rows[i]);
        assert(!(dataset::column(rows.drop_last(), name) is Mixed));
        lemma_seen(rows.drop_last(), name, i);
        lemma_in_range(rows.drop_last(), name, i);
    }
}

proof fn lemma_seen(rows: Seq<RowView>, name: Seq<char>, i: int)
    requires
        0 <= i < rows.len(),
        rows[i].dom().contains(name),
    ensures
        !(dataset::column(rows, name) is Unseen),
    decreases rows.len(),
{
    if i < rows.len() - 1 {
        assert(rows.drop_last()[i] == rows[i]);
        lemma_seen(rows.drop_last(), name, i);
    }
}

/// A number as a floating-point number is the nearest one to its value, and not coarse only where it
/// is that value.
proof fn lemma_nearest_num(n: query::Num)
    requires
        !query::num_is_nan(n),
    ensures
        !query::num_float(n).is_nan_spec(),
        query::num_float(n).units() == float::nearest_units(query::num_units(n)).units(),
        !is_coarse(query::num_float(n)) ==> query::num_float(n).units() == query::num_units(n),
{
    match n {
        query::Num::Int(i) => {
            float::lemma_nearest_of(Float { bits: 0 }, i as int);
            float::lemma_nearest_monotone(query::num_units(n), query::num_units(n));
            if !is_coarse(query::num_float(n)) {
                float::lemma_fine_is_exact(i as int);
            }
        },
        query::Num::Float(f) => {
            float::lemma_nearest_of(f, 0);
        },
    }
}

/// A shard that its ranges rule out has no row that meets the condition.
pub proof fn lemma_pruning_is_sound(rows: Seq<RowView>, stats: StatsView, p: PredicateView, i: int)
    requires
        dataset::describes(stats, rows),
        0 <= i < rows.len(),
        query::meets(p, rows[i]),
    ensures
        can_match_spec(stats, p),
    decreases p,
{
    match p {
        PredicateView::And(a, b) => {
            lemma_pruning_is_sound(rows, stats, *a, i);
            lemma_pruning_is_sound(rows, stats, *b, i);
        },
        PredicateView::Or(a, b) => {
            if query::meets(*a, rows[i]) {
                lemma_pruning_is_sound(rows, stats, *a, i);
            } else {
                lemma_pruning_is_sound(rows, stats, *b, i);
            }
        },
        PredicateView::Cmp { field, op, value } => {
            if let JsonView::Number(n) = value {
                if stats.dom().contains(field) && op != CmpOp::Ne {
                    let c = dataset::column(rows, field);
                    assert(c is Range);
                    let cell = query::cell_value(rows[i], field);
                    assert(cell is Number);
                    let v = cell->Number_0;
                    query::lemma_num_order(v, n);
                    query::lemma_num_order(n, v);
                    lemma_nearest_num(v);
                    lemma_nearest_num(n);
                    lemma_in_range(rows, field, i);
                    float::lemma_by_magnitude(query::num_float(v), query::num_float(n));
                    if query::num_units(v) <= query::num_units(n) {
                        float::lemma_nearest_monotone(query::num_units(v), query::num_units(n));
                    }
                    if query::num_units(n) <= query::num_units(v) {
                        float::lemma_nearest_monotone(query::num_units(n), query::num_units(v));
                    }
                }
            }
        },
        _ => {},
    }
}

/// The work on one shard: its hosts from the best on, and which of them has it now.
#[derive(Debug, Clone, PartialEq)]
pub struct ShardTask {
    pub shard: Shard,
    pub ranked_hosts: Vec<String>,
    pub attempt: usize,
}

/// What a [`ShardTask`] stands for.
pub struct TaskView {
    pub shard: ShardView,
    pub ranked_hosts: Seq<Seq<char>>,
    pub attempt: usize,
}

impl DeepView for ShardTask {
    type V = TaskView;

    open spec fn deep_view(&self) -> TaskView {
        TaskView {
            shard: self.shard.deep_view(),
            ranked_hosts: self.ranked_hosts.deep_view(),
            attempt: self.attempt,
        }
    }
}

impl TaskView {
    /// The host that has the shard now, if there is one left.
    pub open spec fn current(self) -> Option<Seq<char>> {
        if self.attempt < self.ranked_hosts.len() {
            Some(self.ranked_hosts[self.attempt as int])
        } else {
            None
        }
    }

    /// The work after the host that has the shard failed.
    pub open spec fn advanced(self) -> TaskView {
        TaskView {
            attempt: if self.attempt + 1 < self.ranked_hosts.len() {
                (self.attempt + 1) as usize
            } else {
                self.ranked_hosts.len() as usize
            },
            ..self
        }
    }
}

impl ShardTask {
    /// The host that has the shard now, if there is one left.
    pub fn host(&self) -> (r: Option<&str>)
        ensures
            match r {
                Some(h) => self.deep_view().current() == Some(h@),
                None => self.deep_view().current() is None,
            },
    {
        if self.attempt < self.ranked_hosts.len() {
            Some(self.ranked_hosts[self.attempt].as_str())
        } else {
            None
        }
    }

    /// Goes on to the next host; whether there is one.
    pub fn advance(&mut self) -> (r: bool)
        ensures
            final(self).deep_view() == old(self).deep_view().advanced(),
            r == (old(self).attempt + 1 < old(self).ranked_hosts@.len()),
            r == final(self).deep_view().current() is Some,
    {
        let n: usize = self.ranked_hosts.len();
        if self.attempt < n && self.attempt + 1 < n {
            self.attempt = self.attempt + 1;
            true
        } else {
            self.attempt = n;
            false
        }
    }

    /// Whether no host is left.
    pub fn exhausted(&self) -> (r: bool)
        ensures
            r == self.deep_view().current() is None,
    {
        self.attempt >= self.ranked_hosts.len()
    }
}

/// The score of a host for a shard.
pub open spec fn host_score(cid: Seq<char>, host: Seq<char>) -> nat {
    digest::score_of(score_bytes(cid, host))
}

/// What is scored: the shard and the host, a bar between them.
pub open spec fn score_bytes(cid: Seq<char>, host: Seq<char>) -> Seq<u8> {
    encode_utf8(cid) + encode_utf8("|"@) + encode_utf8(host)
}

/// The score of a host for a shard.
pub fn rendezvous_score(shard_cid: &str, host_id: &str) -> (r: u64)
    ensures
        r == host_score(shard_cid@, host_id@),
{
    let mut bytes: Vec<u8> = Vec::new();
    bytes.extend_from_slice(shard_cid.as_bytes());
    bytes.extend_from_slice("|".as_bytes());
    bytes.extend_from_slice(host_id.as_bytes());
    proof {
        assert(bytes@ =~= encode_utf8(shard_cid@) + encode_utf8("|"@) + encode_utf8(host_id@));
    }
    score(bytes.as_slice())
}

/// A host with score `x` and name `a` does not come after one with score `y` and name `b`: it has the
/// higher score, or the same and does not come after it by name.
pub open spec fn scored_le(x: nat, a: Seq<char>, y: nat, b: Seq<char>) -> bool {
    x > y || (x == y && !text::precedes(b, a))
}

/// Host `a` does not come after host `b` for a shard.
pub open spec fn host_le(cid: Seq<char>, a: Seq<char>, b: Seq<char>) -> bool {
    scored_le(host_score(cid, a), a, host_score(cid, b), b)
}

pub open spec fn scores_le(hosts: Seq<Seq<char>>, scores: Seq<u64>) -> spec_fn(int, int) -> bool {
    |i: int, j: int| scored_le(scores[i] as nat, hosts[i], scores[j] as nat, hosts[j])
}

/// The hosts from the best on, by these scores.
pub open spec fn ranked_by(hosts: Seq<Seq<char>>, scores: Seq<u64>) -> Seq<Seq<char>> {
    sort::arranged(hosts, sort::arrangement(hosts.len() as int, scores_le(hosts, scores)))
}

/// The scores of hosts for a shard.
pub open spec fn scores_for(cid: Seq<char>, hosts: Seq<Seq<char>>) -> Seq<u64> {
    Seq::new(hosts.len(), |i: int| host_score(cid, hosts[i]) as u64)
}

/// The hosts from the best on.
pub open spec fn ranking(cid: Seq<char>, hosts: Seq<Seq<char>>) -> Seq<Seq<char>> {
    ranked_by(hosts, scores_for(cid, hosts))
}

proof fn lemma_scores_total(hosts: Seq<Seq<char>>, scores: Seq<u64>)
    ensures
        sort::total(hosts.len() as int, scores_le(hosts, scores)),
{
    let le = scores_le(hosts, scores);
    let n = hosts.len() as int;
    assert forall|i: int, j: int| 0 <= i < n && 0 <= j < n implies #[trigger] le(i, j) || le(j, i) by {
        text::lemma_order(hosts[i], hosts[j], hosts[i]);
    }
    assert forall|i: int, j: int, k: int|
        0 <= i < n && 0 <= j < n && 0 <= k < n && #[trigger] le(i, j) && #[trigger] le(j, k) implies le(
        i,
        k,
    ) by {
        text::lemma_order(hosts[k], hosts[i], hosts[j]);
        text::lemma_order(hosts[i], hosts[j], hosts[k]);
        text::lemma_order(hosts[j], hosts[k], hosts[i]);
    }
}

/// Hosts with their scores.
struct ByScore<'a> {
    scores: &'a Vec<u64>,
    hosts: &'a [String],
}

impl<'a> ByScore<'a> {
    #[verifier::type_invariant]
    spec fn scored(&self) -> bool {
        self.scores@.len() == self.hosts@.len()
    }
}

impl<'a> Ranking for ByScore<'a> {
    closed spec fn size(&self) -> int {
        self.hosts@.len() as int
    }

    closed spec fn le(&self) -> spec_fn(int, int) -> bool {
        scores_le(self.hosts.deep_view(), self.scores@)
    }

    proof fn lemma_total(&self) {
        lemma_scores_total(self.hosts.deep_view(), self.scores@);
    }

    fn not_after(&self, i: usize, j: usize) -> (r: bool) {
        proof {
            use_type_invariant(self);
        }
        let a: u64 = self.scores[i];
        let b: u64 = self.scores[j];
        a > b || (a == b && !before(self.hosts[j].as_str(), self.hosts[i].as_str()))
    }
}

/// The hosts from the best on, by these scores.
pub fn rank_scored(hosts: &[String], scores: &Vec<u64>) -> (r: Vec<String>)
    requires
        hosts@.len() == scores@.len(),
    ensures
        r.deep_view() == ranked_by(hosts.deep_view(), scores@),
{
    let ghost all = hosts.deep_view();
    let ranked = ByScore { scores, hosts };
    let p: Vec<usize> = sort(&ranked, hosts.len());
    let mut out: Vec<String> = Vec::new();
    let mut k: usize = 0;
    while k < p.len()
        invariant
            k <= p@.len() == hosts@.len(),
            all == hosts.deep_view(),
            forall|j: int| 0 <= j < p@.len() ==> #[trigger] p@[j] < hosts@.len(),
            out@.len() == k,
            forall|j: int| 0 <= j < k ==> (#[trigger] out@[j])@ == all[p@[j] as int],
        decreases p@.len() - k,
    {
        assert(p@[k as int] < hosts@.len());
        out.push(hosts[p[k]].clone());
        k = k + 1;
    }
    proof {
        assert(out.deep_view() =~= sort::arranged(all, sort::ints(p@)));
    }
    out
}

/// The hosts from the best on for a shard: by descending score, and by name where scores are equal.
pub fn rank_hosts(shard_cid: &str, hosts: &[String]) -> (r: Vec<String>)
    ensures
        r.deep_view() == ranking(shard_cid@, hosts.deep_view()),
{
    let mut scores: Vec<u64> = Vec::new();
    let mut i: usize = 0;
    while i < hosts.len()
        invariant
            i <= hosts@.len(),
            scores@.len() == i,
            forall|j: int|
                0 <= j < i ==> (#[trigger] scores@[j]) == scores_for(shard_cid@, hosts.deep_view())[j],
        decreases hosts@.len() - i,
    {
        scores.push(rendezvous_score(shard_cid, hosts[i].as_str()));
        i = i + 1;
    }
    proof {
        assert(scores@ =~= scores_for(shard_cid@, hosts.deep_view()));
    }
    rank_scored(hosts, &scores)
}

/// The plan: for each shard its hosts from the best on, of which the first has it.
pub open spec fn planned(shards: Seq<ShardView>, hosts: Seq<Seq<char>>) -> Seq<TaskView> {
    Seq::new(
        shards.len(),
        |i: int|
            TaskView {
                shard: shards[i],
                ranked_hosts: ranking(shards[i].cid, hosts),
                attempt: 0,
            },
    )
}

/// The plan for shards.
pub fn plan(shards: &[Shard], hosts: &[String]) -> (r: Vec<ShardTask>)
    ensures
        r.deep_view() == planned(shards.deep_view(), hosts.deep_view()),
{
    let mut out: Vec<ShardTask> = Vec::new();
    let mut i: usize = 0;
    while i < shards.len()
        invariant
            i <= shards@.len(),
            out@.len() == i,
            forall|j: int|
                0 <= j < i ==> (#[trigger] out@[j]).deep_view() == planned(
                    shards.deep_view(),
                    hosts.deep_view(),
                )[j],
        decreases shards@.len() - i,
    {
        let shard: Shard = shards[i].duplicate();
        let ranked_hosts: Vec<String> = rank_hosts(shard.cid.as_str(), hosts);
        out.push(ShardTask { shard, ranked_hosts, attempt: 0 });
        i = i + 1;
    }
    proof {
        assert(out.deep_view() =~= planned(shards.deep_view(), hosts.deep_view()));
    }
    out
}

/// The host at a depth of the ranking of a shard, if it is that deep.
pub fn fallback_host(shard_cid: &str, hosts: &[String], attempt: usize) -> (r: Option<String>)
    ensures
        r.deep_view() == (if attempt < ranking(shard_cid@, hosts.deep_view()).len() {
            Some(ranking(shard_cid@, hosts.deep_view())[attempt as int])
        } else {
            None
        }),
{
    let ranked: Vec<String> = rank_hosts(shard_cid, hosts);
    if attempt < ranked.len() {
        Some(ranked[attempt].clone())
    } else {
        None
    }
}

/// How many tasks a host has.
pub open spec fn load_of(tasks: Seq<TaskView>, host: Seq<char>) -> nat
    decreases tasks.len(),
{
    if tasks.len() == 0 {
        0
    } else {
        load_of(tasks.drop_last(), host) + (if tasks.last().current() == Some(host) {
            1nat
        } else {
            0nat
        })
    }
}

proof fn lemma_load_bound(tasks: Seq<TaskView>, host: Seq<char>)
    ensures
        load_of(tasks, host) <= tasks.len(),
    decreases tasks.len(),
{
    if tasks.len() > 0 {
        lemma_load_bound(tasks.drop_last(), host);
    }
}

/// The number of tasks of each host that has any.
pub fn load_summary(tasks: &[ShardTask]) -> (r: Table<String, usize>)
    ensures
        forall|h: Seq<char>|
            (r.contents().dom().contains(h) <==> #[trigger] load_of(tasks.deep_view(), h) > 0) && (
            r.contents().dom().contains(h) ==> r.contents()[h] == load_of(tasks.deep_view(), h)),
{
    let ghost all = tasks.deep_view();
    let mut loads: Table<String, usize> = Table::new();
    let mut i: usize = 0;
    proof {
        assert(all.take(0) =~= Seq::<TaskView>::empty());
    }
    while i < tasks.len()
        invariant
            i <= tasks@.len(),
            all == tasks.deep_view(),
            forall|h: Seq<char>|
                (loads.contents().dom().contains(h) <==> #[trigger] load_of(all.take(i as int), h) > 0)
                    && (loads.contents().dom().contains(h) ==> loads.contents()[h] == load_of(
                    all.take(i as int),
                    h,
                )),
        decreases tasks@.len() - i,
    {
        let ghost was = loads.contents();
        proof {
            assert(all.take(i + 1).drop_last() =~= all.take(i as int));
            assert(all.take(i + 1).last() == tasks@[i as int].deep_view());
        }
        match tasks[i].host() {
            Some(h) => {
                let host: String = h.to_owned();
                let ghost name = host@;
                proof {
                    lemma_load_bound(all.take(i as int), name);
                    assert(was.dom().contains(name) <==> load_of(all.take(i as int), name) > 0);
                }
                let n: usize = match loads.get(&host) {
                    Some(n) => *n,
                    None => 0,
                };
                loads.insert(host, n + 1);
                proof {
                    assert forall|h: Seq<char>|
                        (loads.contents().dom().contains(h) <==> #[trigger] load_of(all.take(i + 1), h)
                            > 0) && (loads.contents().dom().contains(h) ==> loads.contents()[h]
                            == load_of(all.take(i + 1), h)) by {
                        assert(was.dom().contains(h) <==> load_of(all.take(i as int), h) > 0);
                    }
                }
            },
            None => {
                proof {
                    assert forall|h: Seq<char>|
                        (loads.contents().dom().contains(h) <==> #[trigger] load_of(all.take(i + 1), h)
                            > 0) && (loads.contents().dom().contains(h) ==> loads.contents()[h]
                            == load_of(all.take(i + 1), h)) by {
                        assert(was.dom().contains(h) <==> load_of(all.take(i as int), h) > 0);
                    }
                }
            },
        }
        i = i + 1;
    }
    proof {
        assert(all.take(all.len() as int) =~= all);
    }
    loads
}

spec fn best_first(cid: Seq<char>, s: Seq<Seq<char>>) -> bool {
    forall|i: int, j: int| 0 <= i < j < s.len() ==> host_le(cid, #[trigger] s[i], #[trigger] s[j])
}

/// A ranking has the hosts, each as often as they have it, the better before the worse.
pub proof fn lemma_ranking(cid: Seq<char>, hosts: Seq<Seq<char>>)
    ensures
        ranking(cid, hosts).to_multiset() == hosts.to_multiset(),
        ranking(cid, hosts).len() == hosts.len(),
        forall|i: int, j: int|
            0 <= i < j < hosts.len() ==> host_le(
                cid,
                #[trigger] ranking(cid, hosts)[i],
                #[trigger] ranking(cid, hosts)[j],
            ),
{
    let n = hosts.len() as int;
    let scores = scores_for(cid, hosts);
    let le = scores_le(hosts, scores);
    lemma_scores_total(hosts, scores);
    sort::lemma_arrangement_exists(n, le);
    let p = sort::arrangement(n, le);
    sort::lemma_places(p, n);
    sort::lemma_arranged_multiset(hosts, p);
    let r = ranking(cid, hosts);
    assert forall|i: int, j: int| 0 <= i < j < n implies host_le(cid, #[trigger] r[i], #[trigger] r[j]) by {
        assert(sort::first(le, p[i], p[j]));
        digest::lemma_score_fits(score_bytes(cid, r[i]));
        digest::lemma_score_fits(score_bytes(cid, r[j]));
    }
}

/// Two sequences of the same hosts, both from the best on, are the same.
proof fn lemma_best_first_unique(cid: Seq<char>, s: Seq<Seq<char>>, t: Seq<Seq<char>>)
    requires
        s.to_multiset() == t.to_multiset(),
        best_first(cid, s),
        best_first(cid, t),
    ensures
        s == t,
    decreases s.len(),
{
    s.to_multiset_ensures();
    t.to_multiset_ensures();
    if s.len() == 0 {
        assert(s =~= t);
    } else {
        let a = s.last();
        let b = t.last();
        assert(s.contains(a) && t.contains(b));
        sort::lemma_same_members(s, t, a);
        sort::lemma_same_members(t, s, b);
        let i = choose|i: int| 0 <= i < t.len() && t[i] == a;
        let j = choose|j: int| 0 <= j < s.len() && s[j] == b;
        if a != b {
            assert(host_le(cid, t[i], t[t.len() - 1]));
            assert(host_le(cid, s[j], s[s.len() - 1]));
            text::lemma_order(a, b, a);
        }
        assert(s =~= s.drop_last().push(a));
        assert(t =~= t.drop_last().push(b));
        s.drop_last().to_multiset_ensures();
        t.drop_last().to_multiset_ensures();
        assert(s.drop_last().to_multiset() =~= s.to_multiset().remove(a));
        assert(t.drop_last().to_multiset() =~= t.to_multiset().remove(b));
        lemma_best_first_unique(cid, s.drop_last(), t.drop_last());
    }
}

/// The ranking does not depend on the order in which hosts are given.
pub proof fn lemma_ranking_is_of_the_set(cid: Seq<char>, a: Seq<Seq<char>>, b: Seq<Seq<char>>)
    requires
        a.to_multiset() == b.to_multiset(),
    ensures
        ranking(cid, a) == ranking(cid, b),
{
    lemma_ranking(cid, a);
    lemma_ranking(cid, b);
    lemma_best_first_unique(cid, ranking(cid, a), ranking(cid, b));
}

proof fn lemma_filtered_best_first(cid: Seq<char>, s: Seq<Seq<char>>, p: spec_fn(Seq<char>) -> bool)
    requires
        best_first(cid, s),
    ensures
        best_first(cid, s.filter(p)),
        forall|i: int|
            0 <= i < s.filter(p).len() ==> s.contains(#[trigger] s.filter(p)[i]),
    decreases s.len(),
{
    reveal(Seq::filter);
    if s.len() > 0 {
        let rest = s.drop_last();
        lemma_filtered_best_first(cid, rest, p);
        let kept = rest.filter(p);
        let now = s.filter(p);
        assert forall|i: int| 0 <= i < kept.len() implies host_le(cid, #[trigger] kept[i], s.last()) by {
            assert(rest.contains(kept[i]));
            let j = choose|j: int| 0 <= j < rest.len() && rest[j] == kept[i];
            assert(s[j] == kept[i]);
            assert(host_le(cid, s[j], s[s.len() - 1]));
        }
        assert forall|i: int| 0 <= i < now.len() implies s.contains(#[trigger] now[i]) by {
            if i < kept.len() {
                assert(now[i] == kept[i]);
                assert(rest.contains(kept[i]));
                let j = choose|j: int| 0 <= j < rest.len() && rest[j] == kept[i];
                assert(s[j] == kept[i]);
            } else {
                assert(s[s.len() - 1] == now[i]);
            }
        }
    }
}

/// Where some hosts leave, the others keep their places relative to each other: a shard goes to
/// another host only if its own left.
pub proof fn lemma_minimal_disruption(
    cid: Seq<char>,
    hosts: Seq<Seq<char>>,
    stays: spec_fn(Seq<char>) -> bool,
)
    ensures
        ranking(cid, hosts.filter(stays)) == ranking(cid, hosts).filter(stays),
        hosts.len() > 0 && stays(ranking(cid, hosts)[0]) ==> ranking(cid, hosts.filter(stays)).len() > 0
            && ranking(cid, hosts.filter(stays))[0] == ranking(cid, hosts)[0],
{
    let r = ranking(cid, hosts);
    lemma_ranking(cid, hosts);
    lemma_ranking(cid, hosts.filter(stays));
    lemma_filtered_best_first(cid, r, stays);
    algebra::lemma_filtered_multiset(hosts, stays);
    algebra::lemma_filtered_multiset(r, stays);
    lemma_best_first_unique(cid, ranking(cid, hosts.filter(stays)), r.filter(stays));
    if hosts.len() > 0 && stays(r[0]) {
        lemma_filter_keeps_first(r, stays);
    }
}

proof fn lemma_filter_keeps_first(s: Seq<Seq<char>>, p: spec_fn(Seq<char>) -> bool)
    requires
        s.len() > 0,
        p(s[0]),
    ensures
        s.filter(p).len() > 0,
        s.filter(p)[0] == s[0],
    decreases s.len(),
{
    reveal(Seq::filter);
    let rest = s.drop_last();
    if rest.len() > 0 {
        lemma_filter_keeps_first(rest, p);
    } else {
        assert(rest.filter(p) =~= Seq::<Seq<char>>::empty());
    }
}

} // verus!
