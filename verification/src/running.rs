//! What a run does: whom it believes, what it counts, and when it is refused.

use crate::combine::{Accum, GroupsView, KahanSum, Partial, PartialView};
use crate::dataset;
use crate::dataset::{DatasetView, Row, RowView, ShardView};
use crate::engine;
use crate::engine::{
    concluded, concluded_rows, projection_finished, projection_started, run_finished, run_started,
    scan_cost, tallied, walked, CostLimits, EngineErrorView, MapError, MapErrorView, OutcomeView,
    ProjectOutcome, RunConfig, RunReport, ShardOutcome, StartView, StepView, WalkView,
};
use crate::float::Float;
use crate::mesh;
use crate::mesh::{MapReply, ReplyView};
use crate::plan::{ShardTask, TaskView};
use crate::query::QueryView;
use crate::quorum;
use crate::quorum::{accepted, agree, QuorumError};
use vstd::prelude::*;

verus! {

/// How many copies agree with a partial result.
pub open spec fn backers(copies: Seq<PartialView>, p: PartialView) -> nat {
    copies.filter(|c: PartialView| agree(p, c)).len()
}

proof fn lemma_votes(copies: Seq<PartialView>, p: PartialView, n: nat)
    requires
        n <= copies.len(),
    ensures
        quorum::votes(copies, p, n) == backers(copies.take(n as int), p),
    decreases n,
{
    reveal(Seq::filter);
    if n > 0 {
        lemma_votes(copies, p, (n - 1) as nat);
        assert(copies.take(n as int).drop_last() =~= copies.take(n - 1));
        assert(copies.take(n as int).last() == copies[n - 1]);
    }
}

/// A state without a number that is infinite or none.
pub open spec fn finite(a: Accum) -> bool {
    match a {
        Accum::Count(_) => true,
        Accum::IntSum(_) => true,
        Accum::Sum(k) => finite_sum(k),
        Accum::Min(m) => m matches Some(x) ==> finite_number(x),
        Accum::Max(m) => m matches Some(x) ==> finite_number(x),
        Accum::Avg { sum, count } => finite_sum(sum),
    }
}

pub open spec fn finite_number(f: Float) -> bool {
    !f.is_nan_spec() && !f.is_infinite()
}

pub open spec fn finite_sum(k: KahanSum) -> bool {
    finite_number(k.sum) && finite_number(k.comp)
}

pub open spec fn all_finite(p: PartialView) -> bool {
    forall|k: Seq<Seq<char>>, i: int| #[trigger]
        p.groups.dom().contains(k) && 0 <= i < p.groups[k].len() ==> finite(#[trigger] p.groups[k][i])
}

/// Copies whose numbers are finite agree exactly where they are the same: the same aggregates, the same
/// groups, and the same state of each aggregate in each group.
pub proof fn lemma_agree(a: PartialView, b: PartialView)
    requires
        all_finite(a),
        all_finite(b),
    ensures
        agree(a, b) <==> a == b,
{
    lemma_as_sent(a);
    lemma_as_sent(b);
}

proof fn lemma_as_sent(p: PartialView)
    requires
        all_finite(p),
    ensures
        quorum::wire_form(p) == p,
{
    let w = quorum::wire_form(p);
    assert forall|k: Seq<Seq<char>>| #[trigger] p.groups.dom().contains(k) implies w.groups[k]
        == p.groups[k] by {
        assert forall|i: int| 0 <= i < p.groups[k].len() implies #[trigger] w.groups[k][i] == p.groups[k][i] by {
            assert(finite(p.groups[k][i]));
        }
        assert(w.groups[k] =~= p.groups[k]);
    }
    assert(w.groups =~= p.groups);
}

/// A copy is accepted where as many copies agree with it as are needed, all of them where none is said.
/// It is the first of those with which the most agree; and where no copy has that many, none is.
pub proof fn lemma_accepted(copies: Seq<PartialView>, quorum: usize, i: int) -> (w: int)
    requires
        0 <= i < copies.len() <= usize::MAX,
    ensures
        0 <= w < copies.len(),
        backers(copies, copies[i]) <= backers(copies, copies[w]),
        i < w ==> backers(copies, copies[i]) < backers(copies, copies[w]),
        ({
            let need = if quorum == 0 {
                copies.len() as int
            } else {
                quorum as int
            };
            let most = backers(copies, copies[w]);
            if most >= need {
                accepted(copies, quorum) == Ok::<PartialView, QuorumError>(copies[w])
            } else {
                accepted(copies, quorum) == Err::<PartialView, QuorumError>(
                    QuorumError::Disagreed {
                        best: most as usize,
                        copies: copies.len() as usize,
                        need: need as usize,
                    },
                )
            }
        }),
{
    let w = quorum::winner(copies);
    quorum::lemma_winner(copies);
    lemma_votes(copies, copies[i], copies.len());
    lemma_votes(copies, copies[w], copies.len());
    assert(copies.take(copies.len() as int) =~= copies);
    assert(quorum::support(copies, i) <= quorum::support(copies, w));
    w
}

/// The rows of all shards together, and their bytes.
pub open spec fn rows_in_all(shards: Seq<ShardView>) -> nat
    decreases shards.len(),
{
    if shards.len() == 0 {
        0
    } else {
        shards[0].rows as nat + rows_in_all(shards.skip(1))
    }
}

pub open spec fn bytes_in_all(shards: Seq<ShardView>) -> nat
    decreases shards.len(),
{
    if shards.len() == 0 {
        0
    } else {
        shards[0].bytes as nat + bytes_in_all(shards.skip(1))
    }
}

proof fn lemma_totals_push(shards: Seq<ShardView>, s: ShardView)
    ensures
        rows_in_all(shards.push(s)) == rows_in_all(shards) + s.rows,
        bytes_in_all(shards.push(s)) == bytes_in_all(shards) + s.bytes,
    decreases shards.len(),
{
    let all = shards.push(s);
    if shards.len() == 0 {
        assert(all.skip(1) =~= Seq::<ShardView>::empty());
        assert(rows_in_all(all.skip(1)) == 0 && bytes_in_all(all.skip(1)) == 0);
    } else {
        lemma_totals_push(shards.skip(1), s);
        assert(all.skip(1) =~= shards.skip(1).push(s));
    }
}

/// The rows of a dataset are those of its shards together, and so are its bytes.
pub proof fn lemma_totals(shards: Seq<ShardView>)
    ensures
        dataset::rows_of(shards) == rows_in_all(shards),
        dataset::bytes_of_shards(shards) == bytes_in_all(shards),
    decreases shards.len(),
{
    if shards.len() > 0 {
        let rest = shards.drop_last();
        lemma_totals(rest);
        lemma_totals_push(rest, shards.last());
        assert(rest.push(shards.last()) =~= shards);
    }
}

/// A scan is refused exactly where a limit other than 0 is exceeded: by the number of shards, by their
/// rows, or by their bytes.
pub proof fn lemma_scan_cost(limits: CostLimits, shards: Seq<ShardView>)
    requires
        rows_in_all(shards) <= u64::MAX,
        bytes_in_all(shards) <= u64::MAX,
    ensures
        scan_cost(limits, shards) is Ok <==> {
            &&& limits.max_shards == 0 || shards.len() <= limits.max_shards
            &&& limits.max_scan_rows == 0 || rows_in_all(shards) <= limits.max_scan_rows
            &&& limits.max_scan_bytes == 0 || bytes_in_all(shards) <= limits.max_scan_bytes
        },
        scan_cost(limits, shards) matches Err(e) ==> (e.limit == limits.max_shards && shards.len()
            > limits.max_shards) || (e.limit == limits.max_scan_rows && e.actual == rows_in_all(shards)
            && e.actual > e.limit) || (e.limit == limits.max_scan_bytes && e.actual == bytes_in_all(shards)
            && e.actual > e.limit),
{
    lemma_totals(shards);
}

pub open spec fn attempts_in_all(outcomes: Seq<OutcomeView>) -> nat
    decreases outcomes.len(),
{
    if outcomes.len() == 0 {
        0
    } else {
        outcomes[0].attempts as nat + attempts_in_all(outcomes.skip(1))
    }
}

proof fn lemma_attempts_push(outcomes: Seq<OutcomeView>, o: OutcomeView)
    ensures
        attempts_in_all(outcomes.push(o)) == attempts_in_all(outcomes) + o.attempts,
    decreases outcomes.len(),
{
    let all = outcomes.push(o);
    if outcomes.len() == 0 {
        assert(all.skip(1) =~= Seq::<OutcomeView>::empty());
        assert(attempts_in_all(all.skip(1)) == 0);
    } else {
        lemma_attempts_push(outcomes.skip(1), o);
        assert(all.skip(1) =~= outcomes.skip(1).push(o));
    }
}

/// A report counts the attempts for all shards, the shards that went to another host than the first, and
/// those of which copies were compared; and it names for each shard the host whose result was taken, the
/// last one where a shard comes up again.
pub proof fn lemma_report(outcomes: Seq<OutcomeView>)
    requires
        attempts_in_all(outcomes) <= usize::MAX,
    ensures
        tallied(outcomes).total_attempts == attempts_in_all(outcomes),
        tallied(outcomes).redistributed == outcomes.filter(|o: OutcomeView| o.redistributed).len(),
        tallied(outcomes).verified == outcomes.filter(|o: OutcomeView| o.verified).len(),
        forall|i: int|
            0 <= i < outcomes.len() ==> tallied(outcomes).served_by.dom().contains(
                (#[trigger] outcomes[i]).shard_cid,
            ),
        forall|i: int|
            0 <= i < outcomes.len() && last_of_shard(outcomes, i) ==> tallied(outcomes).served_by[(
            #[trigger] outcomes[i]).shard_cid] == outcomes[i].served_by,
    decreases outcomes.len(),
{
    reveal(Seq::filter);
    if outcomes.len() > 0 {
        let rest = outcomes.drop_last();
        let o = outcomes.last();
        lemma_attempts_push(rest, o);
        assert(rest.push(o) =~= outcomes);
        lemma_report(rest);
        assert forall|i: int| 0 <= i < outcomes.len() implies tallied(outcomes).served_by.dom().contains(
            (#[trigger] outcomes[i]).shard_cid,
        ) by {
            if i < rest.len() {
                assert(rest[i] == outcomes[i]);
            }
        }
        assert forall|i: int| 0 <= i < outcomes.len() && last_of_shard(outcomes, i) implies tallied(
            outcomes,
        ).served_by[(#[trigger] outcomes[i]).shard_cid] == outcomes[i].served_by by {
            if i < rest.len() {
                assert(rest[i] == outcomes[i]);
                assert(outcomes[outcomes.len() - 1].shard_cid != outcomes[i].shard_cid);
                assert forall|j: int| i < j < rest.len() implies (#[trigger] rest[j]).shard_cid
                    != rest[i].shard_cid by {
                    assert(outcomes[j].shard_cid != outcomes[i].shard_cid);
                }
            }
        }
    }
}

pub open spec fn last_of_shard(outcomes: Seq<OutcomeView>, i: int) -> bool {
    forall|j: int| i < j < outcomes.len() ==> (#[trigger] outcomes[j]).shard_cid != outcomes[i].shard_cid
}

/// How many of the replies are answers.
pub open spec fn answers<V>(replies: Seq<Result<V, MapErrorView>>) -> nat {
    replies.filter(|r: Result<V, MapErrorView>| r is Ok).len()
}

/// How many copies are wanted, at least one.
pub open spec fn wanted_copies(wanted: usize) -> int {
    if wanted == 0 {
        1
    } else {
        wanted as int
    }
}

/// While copies are still wanted, each host of the ranking is asked in turn, and what it answers is kept
/// with its name. The walk is over once there are as many copies as wanted, or the last host has answered.
/// The result are the places of the answers.
#[verifier::rlimit(30)]
pub proof fn lemma_copies<V>(
    task: TaskView,
    wanted: usize,
    replies: Seq<Result<V, MapErrorView>>,
) -> (places: Seq<int>)
    requires
        task.attempt == 0,
        replies.len() <= task.ranked_hosts.len() <= usize::MAX,
        replies.len() > 0 ==> answers(replies.drop_last()) < wanted_copies(wanted),
    ensures
        ({
            let w = walked(task, wanted, replies);
            &&& places.len() == w.copies.len() == answers(replies)
            &&& forall|n: int|
                0 <= n < places.len() ==> 0 <= #[trigger] places[n] < replies.len() && replies[places[n]] is Ok
                    && w.copies[n] == (task.ranked_hosts[places[n]], replies[places[n]]->Ok_0)
            &&& forall|m: int, n: int|
                0 <= m < n < places.len() ==> #[trigger] places[m] < #[trigger] places[n]
            &&& forall|i: int| 0 <= i < replies.len() && #[trigger] replies[i] is Ok ==> places.contains(i)
            &&& w.attempts == replies.len()
            &&& w.task.ranked_hosts == task.ranked_hosts
            &&& w.task.shard == task.shard
            &&& w.finished <==> replies.len() > 0 && replies.last() is Ok && (w.copies.len()
                >= wanted_copies(wanted) || replies.len() == task.ranked_hosts.len())
            &&& !w.finished ==> w.task.attempt == replies.len()
            &&& w.last_err == (if replies.len() > 0 {
                match replies.last() {
                    Ok(_) => None,
                    Err(e) => Some(e),
                }
            } else {
                None
            })
        }),
    decreases replies.len(),
{
    reveal(Seq::filter);
    if replies.len() == 0 {
        Seq::empty()
    } else {
        let rest = replies.drop_last();
        let end = replies.len() - 1;
        if rest.len() > 0 {
            assert(answers(rest.drop_last()) <= answers(rest));
        }
        let before = lemma_copies(task, wanted, rest);
        let v = walked(task, wanted, rest);
        assert(!v.finished);
        assert(v.task.current() == Some(task.ranked_hosts[end]));
        assert forall|n: int| 0 <= n < before.len() implies 0 <= #[trigger] before[n] < rest.len()
            && rest[before[n]] == replies[before[n]] by {}
        let places = if replies.last() is Ok {
            before.push(end)
        } else {
            before
        };
        let w = walked(task, wanted, replies);
        assert forall|n: int| 0 <= n < places.len() implies 0 <= #[trigger] places[n] < replies.len()
            && replies[places[n]] is Ok && w.copies[n] == (
            task.ranked_hosts[places[n]],
            replies[places[n]]->Ok_0,
        ) by {
            if n < before.len() {
                assert(places[n] == before[n]);
            }
        }
        assert forall|i: int| 0 <= i < replies.len() && #[trigger] replies[i] is Ok implies places.contains(i) by {
            if i < end {
                assert(rest[i] == replies[i]);
                let n = before.index_of(i);
                assert(before.contains(i));
                assert(places[n] == i);
            } else {
                assert(places[before.len() as int] == i);
            }
        }
        places
    }
}

/// A shard comes out as its only copy, or where copies are to be compared as the one that is accepted,
/// which is said to be of the first host whose copy agrees with it; and it counts as gone to another host
/// where there were more attempts than copies. Without a copy it does not come out.
#[verifier::rlimit(30)]
pub proof fn lemma_conclusion(w: WalkView<PartialView>, config: RunConfig)
    ensures
        w.copies.len() == 0 ==> (concluded(w, config) matches Err(EngineErrorView::Unserved { cid, last, .. })
            && cid == w.task.shard.cid && last == w.last_err),
        w.copies.len() > 0 && config.redundancy <= 1 ==> (concluded(w, config) matches Ok(o) && o.partial
            == w.copies[0].1 && o.served_by == w.copies[0].0 && !o.verified),
        concluded(w, config) matches Ok(o) ==> {
            &&& w.copies.len() > 0
            &&& o.shard_cid == w.task.shard.cid
            &&& o.attempts == w.attempts
            &&& o.redistributed <==> w.attempts > w.copies.len()
            &&& o.verified <==> config.redundancy > 1 && w.copies.len() > 1
        },
        w.copies.len() > 0 && config.redundancy > 1 ==> (concluded(w, config) is Ok <==> accepted(
            Seq::new(w.copies.len(), |i: int| w.copies[i].1),
            config.quorum,
        ) is Ok),
        w.copies.len() > 0 && config.redundancy > 1 && concluded(w, config) is Ok ==> {
            let o = concluded(w, config)->Ok_0;
            &&& accepted(Seq::new(w.copies.len(), |i: int| w.copies[i].1), config.quorum) == Ok::<
                PartialView,
                QuorumError,
            >(o.partial)
            &&& first_to_agree(w.copies, o.partial, o.served_by)
        },
{
    if w.copies.len() > 0 && config.redundancy > 1 && concluded(w, config) is Ok {
        let copies = quorum::results(w.copies);
        assert(copies =~= Seq::new(w.copies.len(), |i: int| w.copies[i].1));
        let o = concluded(w, config)->Ok_0;
        quorum::lemma_winner(copies);
        let k = quorum::winner(copies);
        assert(copies[k] == o.partial);
        lemma_first_agreeing(copies, o.partial, k);
        let f = quorum::first_agreeing(copies, o.partial);
        assert(copies[f] == w.copies[f].1);
        assert forall|j: int| 0 <= j < f implies !agree(o.partial, (#[trigger] w.copies[j]).1) by {
            assert(copies[j] == w.copies[j].1);
        }
    } else if w.copies.len() > 0 && config.redundancy > 1 {
        assert(quorum::results(w.copies) =~= Seq::new(w.copies.len(), |i: int| w.copies[i].1));
    }
}

/// The host is the first whose copy agrees.
pub open spec fn first_to_agree(
    copies: Seq<(Seq<char>, PartialView)>,
    p: PartialView,
    host: Seq<char>,
) -> bool {
    exists|i: int|
        0 <= i < copies.len() && (#[trigger] copies[i]).0 == host && agree(p, copies[i].1) && forall|j: int|
            0 <= j < i ==> !agree(p, (#[trigger] copies[j]).1)
}

proof fn lemma_first_agreeing(copies: Seq<PartialView>, p: PartialView, k: int)
    requires
        0 <= k < copies.len(),
        agree(p, copies[k]),
    ensures
        0 <= quorum::first_agreeing(copies, p) < copies.len(),
        agree(p, copies[quorum::first_agreeing(copies, p)]),
        forall|j: int| 0 <= j < quorum::first_agreeing(copies, p) ==> !agree(p, #[trigger] copies[j]),
    decreases copies.len(),
{
    if !agree(p, copies[0]) {
        let rest = copies.skip(1);
        assert(rest[k - 1] == copies[k]);
        lemma_first_agreeing(rest, p, k - 1);
        let f = quorum::first_agreeing(rest, p);
        assert(rest[f] == copies[f + 1]);
        assert forall|j: int| 0 <= j < f + 1 implies !agree(p, #[trigger] copies[j]) by {
            if j > 0 {
                assert(rest[j - 1] == copies[j]);
            }
        }
    }
}

/// A run begins with work exactly where the query is valid, there are shards and hosts, no limit is
/// exceeded, and some shard is not ruled out; it is over at once where there is nothing to ask; and it is
/// refused otherwise.
pub proof fn lemma_begun(
    q: QueryView,
    shards: Seq<ShardView>,
    hosts: Seq<Seq<char>>,
    config: RunConfig,
)
    ensures
        run_started(q, shards, hosts, config) is Err <==> q.validity() is Err || (shards.len() > 0 && (
        hosts.len() == 0 || scan_cost(config.limits, shards) is Err)),
        run_started(q, shards, hosts, config) matches Ok(StartView::Work(tasks)) ==> tasks.len() > 0
            && tasks.len() == engine::live(shards, q.predicate).len() && (forall|i: int|
            0 <= i < tasks.len() ==> (#[trigger] tasks[i]).shard == engine::live(shards, q.predicate)[i]
                && tasks[i].attempt == 0),
        run_started(q, shards, hosts, config) matches Ok(StartView::Finished(report)) ==> (shards.len() == 0
            || engine::live(shards, q.predicate).len() == 0) && report.results.len() == 0
            && report.total_attempts == 0,
{
    let none: GroupsView = Map::empty();
    crate::table::lemma_listing::<Vec<String>>(none.dom());
    let keys = crate::table::listing::<Vec<String>>(none.dom());
    if keys.len() > 0 {
        assert(keys.contains(keys[0]));
    }
    let out = crate::combine::finalized(PartialView { aggregates: q.aggregates, groups: none });
    let p = crate::order::lemma_order_groups_by(out, q.group_by, q.order_by);
    crate::order::lemma_limit(crate::order::ordered_groups(out, q.group_by, q.order_by), q.limit);
}

/// A run that comes to an end does so before its time is up and with no more groups than allowed.
pub proof fn lemma_ended(q: QueryView, config: RunConfig, outcomes: Seq<OutcomeView>, elapsed: u64)
    ensures
        ({
            let groups = crate::combine::finalized(
                PartialView {
                    aggregates: q.aggregates,
                    groups: crate::combine::reduced(
                        Seq::new(outcomes.len(), |i: int| outcomes[i].partial),
                    ),
                },
            );
            let most = config.limits.max_result_groups;
            &&& run_finished(q, config, outcomes, elapsed) is Ok <==> (config.deadline matches Some(d)
                ==> elapsed < d) && (most == 0 || groups.len() <= most)
            &&& run_finished(q, config, outcomes, elapsed) matches Ok(report) ==> report.results == q.shaped(
                groups,
            )
        }),
{
    assert(engine::partials(outcomes) =~= Seq::new(outcomes.len(), |i: int| outcomes[i].partial));
}

/// A host is asked next exactly where there is time, the walk is not over, the ranking has a host left,
/// and fewer attempts were made than are allowed, at least one.
pub proof fn lemma_step<V>(w: WalkView<V>, config: RunConfig, elapsed: u64)
    ensures
        w.next(config, elapsed) is Late <==> (config.deadline matches Some(d) && elapsed >= d),
        w.next(config, elapsed) is Ask <==> !(w.next(config, elapsed) is Late) && !w.finished
            && w.task.attempt < w.task.ranked_hosts.len() && (w.attempts == 0 || w.attempts
            < config.max_attempts_per_shard),
        w.next(config, elapsed) matches StepView::Ask(h) ==> h == w.task.ranked_hosts[w.task.attempt as int],
{
}

/// The rows of a shard are those of the first host that gave any.
pub proof fn lemma_rows_conclusion(w: WalkView<Seq<RowView>>)
    ensures
        concluded_rows(w) is Ok <==> w.copies.len() > 0,
        concluded_rows(w) matches Ok(o) ==> o.rows == w.copies[0].1 && o.served_by == w.copies[0].0
            && o.shard_cid == w.task.shard.cid && o.attempts == w.attempts,
        concluded_rows(w) matches Err(e) ==> (e matches EngineErrorView::Unserved { cid, last, .. } && cid
            == w.task.shard.cid && last == w.last_err),
{
}

/// A query for rows begins exactly where it is valid and asks for rows, and there are no shards, or hosts
/// for them and no limit exceeded; it has a task for each shard that is not ruled out.
pub proof fn lemma_rows_begun(
    q: QueryView,
    shards: Seq<ShardView>,
    hosts: Seq<Seq<char>>,
    config: RunConfig,
)
    ensures
        projection_started(q, shards, hosts, config) is Ok <==> q.validity() is Ok && q.projection is Some && (
        shards.len() == 0 || (hosts.len() > 0 && scan_cost(config.limits, shards) is Ok)),
        projection_started(q, shards, hosts, config) matches Ok(tasks) ==> tasks.len() == engine::live(
            shards,
            q.predicate,
        ).len() && (forall|i: int|
            0 <= i < tasks.len() ==> (#[trigger] tasks[i]).shard == engine::live(shards, q.predicate)[i]
                && tasks[i].attempt == 0),
{
}

/// A query for rows ends in time, with its rows sorted and no more of them than its limit.
pub proof fn lemma_rows_ended(q: QueryView, config: RunConfig, c: engine::RowsView, elapsed: u64)
    ensures
        projection_finished(q, config, c, elapsed) is Ok <==> (config.deadline matches Some(d) ==> elapsed < d),
        projection_finished(q, config, c, elapsed) matches Ok(r) ==> {
            let sorted = crate::order::ordered_rows(c.rows, q.order_by);
            &&& r.rows.len() == (match q.limit {
                Some(n) => if n < c.rows.len() {
                    n as int
                } else {
                    c.rows.len() as int
                },
                None => c.rows.len() as int,
            })
            &&& forall|i: int| 0 <= i < r.rows.len() ==> #[trigger] r.rows[i] == sorted[i]
            &&& r.truncated <==> c.truncated || r.rows.len() < c.rows.len()
            &&& r.total_attempts == c.total_attempts
            &&& r.served_by == c.served_by
        },
{
    let p = crate::order::lemma_order_by(c.rows, q.order_by);
    crate::order::lemma_limit(crate::order::ordered_rows(c.rows, q.order_by), q.limit);
}

/// Numbers that are infinite or none are not told apart, as JSON has none of them: in a sum all are the
/// same, and as the least or the greatest they are the same as no number.
pub proof fn lemma_not_finite(x: Float, y: Float)
    requires
        !finite_number(x),
        !finite_number(y),
    ensures
        quorum::wire(Accum::Min(Some(x))) == quorum::wire(Accum::Min(None)),
        quorum::wire(Accum::Max(Some(x))) == quorum::wire(Accum::Max(None)),
        quorum::wire(Accum::Sum(KahanSum { sum: x, comp: x })) == quorum::wire(
            Accum::Sum(KahanSum { sum: y, comp: y }),
        ),
{
}

/// The most rows that are kept: as many as the limit lets where the rows are not to be sorted, and
/// otherwise as many as the memory for results lets, 0 standing for any number.
pub open spec fn most_rows(q: QueryView, config: RunConfig) -> Option<int> {
    if q.limit is Some && q.order_by.len() == 0 {
        Some(q.limit->0 as int)
    } else if config.limits.max_result_groups > 0 {
        Some(config.limits.max_result_groups as int)
    } else {
        None
    }
}

/// The rows of a shard come after those of the shards before it, and of all of them no more than the most
/// are kept, the first ones. Where some are cut off the result says so, and it stays said.
pub proof fn lemma_collected(
    before: engine::RowsView,
    q: QueryView,
    config: RunConfig,
    o: engine::ProjectView,
    more: bool,
)
    ensures
        ({
            let r = engine::collected(before, q, config, o, more);
            let all = before.rows + o.rows;
            &&& r.rows.len() <= all.len()
            &&& forall|i: int| 0 <= i < r.rows.len() ==> #[trigger] r.rows[i] == all[i]
            &&& most_rows(q, config) is None ==> r.rows == all
            &&& most_rows(q, config) matches Some(n) ==> r.rows.len() == (if n < all.len() {
                n
            } else {
                all.len() as int
            })
            &&& before.truncated || r.rows.len() < all.len() ==> r.truncated
            &&& r.truncated && !before.truncated && r.rows.len() == all.len() ==> more && (q.limit matches Some(n)
                && n <= all.len() && q.order_by.len() == 0)
            &&& r.served_by == before.served_by.insert(o.shard_cid, o.served_by)
            &&& before.total_attempts + o.attempts <= usize::MAX ==> r.total_attempts == before.total_attempts
                + o.attempts
        }),
{
}

/// More rows may come exactly where a shard that was not seen has rows.
pub proof fn lemma_more_rows(tasks: Seq<TaskView>, seen: Seq<bool>, i: int)
    requires
        0 <= i < tasks.len(),
    ensures
        !seen[i] && tasks[i].shard.rows > 0 ==> engine::rows_remain(tasks, seen),
        (forall|j: int| 0 <= j < tasks.len() ==> seen[j] || (#[trigger] tasks[j]).shard.rows == 0)
            ==> !engine::rows_remain(tasks, seen),
{
}

/// What is added to a dataset for rows: nothing where there are none, and otherwise a shard after the
/// others, with as many rows and with their ranges.
pub proof fn lemma_recorded(
    d: DatasetView,
    cid: Seq<char>,
    rows: Seq<RowView>,
    bytes: u64,
    after: DatasetView,
)
    requires
        mesh::with_shard(d, cid, rows, bytes, after),
    ensures
        rows.len() == 0 ==> after == d,
        rows_in_all(after.shards) == rows_in_all(d.shards) + rows.len(),
        rows.len() > 0 ==> bytes_in_all(after.shards) == bytes_in_all(d.shards) + bytes,
        rows.len() > 0 ==> after.shards == d.shards.push(after.shards.last()) && after.shards.last().cid == cid
            && (after.shards.last().stats matches Some(s) && dataset::describes(s, rows)),
        after.name == d.name,
{
    if rows.len() > 0 {
        lemma_totals_push(d.shards, after.shards.last());
        assert(after.shards =~= d.shards.push(after.shards.last()));
    }
}

/// Outcomes and reports stand for what stands in their fields.
pub proof fn lemma_fields_are_kept(o: ShardOutcome, r: RunReport, p: ProjectOutcome, t: ShardTask)
    ensures
        o.deep_view().shard_cid == o.shard_cid@,
        o.deep_view().served_by == o.served_by@,
        o.deep_view().partial == o.partial.deep_view(),
        o.deep_view().attempts == o.attempts,
        o.deep_view().redistributed == o.redistributed,
        o.deep_view().verified == o.verified,
        r.deep_view().results == r.results.deep_view(),
        r.deep_view().total_attempts == r.total_attempts,
        r.deep_view().redistributed == r.redistributed,
        r.deep_view().verified == r.verified,
        p.deep_view().shard_cid == p.shard_cid@,
        p.deep_view().served_by == p.served_by@,
        p.deep_view().rows == p.rows.deep_view(),
        p.deep_view().attempts == p.attempts,
        t.deep_view().attempt == t.attempt,
        t.deep_view().shard.cid == t.shard.cid@,
        t.deep_view().shard.rows == t.shard.rows,
        t.deep_view().shard.bytes == t.shard.bytes,
        t.deep_view().ranked_hosts.len() == t.ranked_hosts@.len(),
        forall|i: int|
            0 <= i < t.ranked_hosts@.len() ==> t.deep_view().ranked_hosts[i] == #[trigger] t.ranked_hosts@[i]@,
{
}

/// Replies and errors stand for what they are called.
pub proof fn lemma_replies_are_kept(p: Partial, rows: Vec<Row>, s: String)
    ensures
        MapReply::Answer(p).deep_view() == ReplyView::Answer(p.deep_view()),
        MapReply::Rows(rows).deep_view() == ReplyView::Rows(rows.deep_view()),
        MapReply::Failure(s).deep_view() == ReplyView::Failure(s@),
        MapError::Timeout.deep_view() == MapErrorView::Timeout,
        MapError::HostError(s).deep_view() == MapErrorView::HostError(s@),
        MapError::MissingBlob(s).deep_view() == MapErrorView::MissingBlob(s@),
        MapError::Corrupt(s).deep_view() == MapErrorView::Corrupt(s@),
        engine::reply_view(Ok::<Partial, MapError>(p)) == Ok::<PartialView, MapErrorView>(p.deep_view()),
        engine::reply_view(Err::<Partial, MapError>(MapError::Timeout)) == Err::<PartialView, MapErrorView>(
            MapErrorView::Timeout,
        ),
{
}

} // verus!
