//! The ranges of columns: what they are, which shards they rule out, and where the others go.

use crate::dataset;
use crate::dataset::{Column, RowView, ShardView, StatsView};
use crate::engine;
use crate::float;
use crate::float::Float;
use crate::grouping;
use crate::grouping::{counts, is_in, number_in};
use crate::json::{JsonView, Num};
use crate::plan;
use crate::plan::{can_match_spec, load_of, TaskView};
use crate::query::{CmpOp, PredicateView};
use crate::text;
use vstd::arithmetic::power2::pow2;
use vstd::prelude::*;

verus! {

/// A row has the column, and something in it that is not a number.
pub open spec fn is_other(row: RowView, name: Seq<char>) -> bool {
    row.dom().contains(name) && number_in(row, name) is None
}

/// A column has a range where some row has it and every row that has it has a number in it. The range is
/// from the least of these numbers to the greatest.
pub proof fn lemma_column(rows: Seq<RowView>, name: Seq<char>)
    ensures
        dataset::column(rows, name) is Unseen <==> forall|i: int|
            0 <= i < rows.len() ==> !(#[trigger] rows[i]).dom().contains(name),
        dataset::column(rows, name) is Mixed <==> exists|i: int|
            0 <= i < rows.len() && is_other(#[trigger] rows[i], name),
        dataset::column(rows, name) matches Column::Range(a, b) ==> forall|i: int|
            0 <= i < rows.len() && counts(#[trigger] rows[i], name) ==> {
                &&& !a.is_nan_spec() && !b.is_nan_spec()
                &&& is_in(a, rows, name) && is_in(b, rows, name)
                &&& a.units() <= number_in(rows[i], name)->0.units() <= b.units()
            },
    decreases rows.len(), 1int,
{
    if rows.len() > 0 {
        let rest = rows.drop_last();
        let last = rows.last();
        let end = rows.len() - 1;
        lemma_column(rest, name);
        assert(rows[end] == last);
        let known = dataset::column(rest, name);
        let now = dataset::column(rows, name);
        assert forall|i: int| 0 <= i < end implies rows[i] == #[trigger] rest[i] by {}
        if known is Unseen {
            assert forall|i: int| 0 <= i < end implies !(#[trigger] rows[i]).dom().contains(name) by {
                assert(rest[i] == rows[i]);
            }
        } else {
            let i = choose|i: int| 0 <= i < rest.len() && (#[trigger] rest[i]).dom().contains(name);
            assert(rows[i].dom().contains(name));
        }
        if known is Mixed {
            let i = choose|i: int| 0 <= i < rest.len() && is_other(#[trigger] rest[i], name);
            assert(is_other(rows[i], name));
        }
        if exists|i: int| 0 <= i < rows.len() && is_other(#[trigger] rows[i], name) {
            let i = choose|i: int| 0 <= i < rows.len() && is_other(#[trigger] rows[i], name);
            if i < end {
                assert(is_other(rest[i], name));
            }
        }
        if let Column::Range(a, b) = now {
            assert forall|i: int| 0 <= i < rows.len() && counts(#[trigger] rows[i], name) implies {
                &&& !a.is_nan_spec() && !b.is_nan_spec()
                &&& is_in(a, rows, name) && is_in(b, rows, name)
                &&& a.units() <= number_in(rows[i], name)->0.units() <= b.units()
            } by {
                lemma_widened(rows, name, i);
            }
        }
    }
}

proof fn lemma_widened(rows: Seq<RowView>, name: Seq<char>, i: int)
    requires
        0 <= i < rows.len(),
        counts(rows[i], name),
        dataset::column(rows, name) is Range,
    ensures
        dataset::column(rows, name) matches Column::Range(a, b) && !a.is_nan_spec() && !b.is_nan_spec()
            && is_in(a, rows, name) && is_in(b, rows, name) && a.units() <= number_in(
            rows[i],
            name,
        )->0.units() <= b.units(),
    decreases rows.len(), 0int,
{
    let rest = rows.drop_last();
    let last = rows.last();
    let end = rows.len() - 1;
    assert(rows[end] == last);
    let known = dataset::column(rest, name);
    let n = number_in(last, name);
    if !last.dom().contains(name) {
        assert(rest[i] == rows[i]);
        lemma_widened(rest, name, i);
        let (a, b) = (known->Range_0, known->Range_1);
        lemma_still_in(rows, name, a);
        lemma_still_in(rows, name, b);
    } else if let Column::Range(a, b) = known {
        let v = n->0;
        if exists|j: int| 0 <= j < rest.len() && counts(#[trigger] rest[j], name) {
            let j = if i < end {
                assert(rest[i] == rows[i]);
                i
            } else {
                choose|j: int| 0 <= j < rest.len() && counts(#[trigger] rest[j], name)
            };
            lemma_widened(rest, name, j);
            lemma_still_in(rows, name, a);
            lemma_still_in(rows, name, b);
            grouping::lemma_of_two(a, v);
            grouping::lemma_of_two(b, v);
            assert(number_in(rows[end], name) == Some(v));
        } else {
            if i < end {
                assert(rest[i] == rows[i]);
            }
            lemma_no_numbers(rest, name);
            grouping::lemma_of_two(a, v);
            grouping::lemma_of_two(b, v);
            assert(number_in(rows[end], name) == Some(v));
        }
    } else {
        assert(known is Unseen);
        if i < end {
            lemma_column(rest, name);
            assert(rest[i] == rows[i]);
        }
        assert(number_in(rows[end], name) == n);
    }
}

proof fn lemma_no_numbers(rows: Seq<RowView>, name: Seq<char>)
    requires
        forall|j: int| 0 <= j < rows.len() ==> !counts(#[trigger] rows[j], name),
    ensures
        dataset::column(rows, name) matches Column::Range(a, b) ==> a.is_nan_spec() && b.is_nan_spec(),
    decreases rows.len(),
{
    if rows.len() > 0 {
        let rest = rows.drop_last();
        assert forall|j: int| 0 <= j < rest.len() implies !counts(#[trigger] rest[j], name) by {
            assert(rest[j] == rows[j]);
        }
        lemma_no_numbers(rest, name);
        assert(!counts(rows[rows.len() - 1], name));
    }
}

proof fn lemma_still_in(rows: Seq<RowView>, name: Seq<char>, x: Float)
    requires
        rows.len() > 0,
        is_in(x, rows.drop_last(), name),
    ensures
        is_in(x, rows, name),
{
    let rest = rows.drop_last();
    let i = choose|i: int| 0 <= i < rest.len() && number_in(#[trigger] rest[i], name) == Some(x);
    assert(number_in(rows[i], name) == Some(x));
}

/// What is kept of a shard's rows: a range for each column that has one, from its least number to its
/// greatest, and for no other column.
pub proof fn lemma_ranges(stats: StatsView, rows: Seq<RowView>, name: Seq<char>, i: int)
    requires
        dataset::describes(stats, rows),
    ensures
        stats.dom().contains(name) <==> (exists|j: int|
            0 <= j < rows.len() && (#[trigger] rows[j]).dom().contains(name)) && (forall|j: int|
            0 <= j < rows.len() ==> !is_other(#[trigger] rows[j], name)),
        stats.dom().contains(name) && 0 <= i < rows.len() && counts(rows[i], name) ==> {
            let (a, b) = stats[name];
            &&& is_in(a, rows, name) && is_in(b, rows, name)
            &&& a.units() <= number_in(rows[i], name)->0.units() <= b.units()
        },
{
    lemma_column(rows, name);
}

/// Two values compare so, in units.
pub open spec fn compares_so(op: CmpOp, x: int, y: int) -> bool {
    match op {
        CmpOp::Eq => x == y,
        CmpOp::Ne => x != y,
        CmpOp::Lt => x < y,
        CmpOp::Le => x <= y,
        CmpOp::Gt => x > y,
        CmpOp::Ge => x >= y,
    }
}

/// Some value of a range compares so.
pub open spec fn some_compares(range: (Float, Float), op: CmpOp, y: int) -> bool {
    exists|x: int| range.0.units() <= x <= range.1.units() && #[trigger] compares_so(op, x, y)
}

proof fn lemma_fine(i: int)
    requires
        -0x20_0000_0000_0000 < i < 0x20_0000_0000_0000,
    ensures
        !float::nearest_int(i).is_nan_spec(),
        !plan::is_coarse(float::nearest_int(i)),
        float::nearest_int(i).units() == i * pow2(1074),
{
    let f = float::nearest_int(i);
    float::lemma_grid(i, 1074);
    float::lemma_coarse();
    vstd::arithmetic::power2::lemma_pow2_pos(1074);
    let one = pow2(1074);
    if f.mag() >= float::COARSE {
        if f.mag() > float::COARSE {
            float::lemma_increasing(float::COARSE as nat, f.mag());
        }
        assert(float::mag_units(f.mag()) >= float::whole_limit() * one);
        assert(i * one < float::whole_limit() * one && -(i * one) < float::whole_limit() * one)
            by (nonlinear_arith)
            requires
                one > 0,
                -float::whole_limit() < i < float::whole_limit(),
        ;
    }
}

/// A comparison of a column that has a range with an integer of up to 53 bits rules a shard out exactly
/// where nothing in the range compares so; one with `!=` never does.
pub proof fn lemma_ruled_out(stats: StatsView, field: Seq<char>, op: CmpOp, i: i128)
    requires
        stats.dom().contains(field),
        !stats[field].0.is_nan_spec(),
        !stats[field].1.is_nan_spec(),
        stats[field].0.units() <= stats[field].1.units(),
        -0x20_0000_0000_0000 < i < 0x20_0000_0000_0000,
    ensures
        can_match_spec(
            stats,
            (PredicateView::Cmp { field, op, value: JsonView::Number(Num::Int(i)) }),
        ) <==> op == CmpOp::Ne || some_compares(stats[field], op, i * pow2(1074)),
{
    let y = i * pow2(1074);
    let (a, b) = stats[field];
    lemma_fine(i as int);
    assert(float::nearest_int(i as int).units() == y);
    assert(compares_so(op, a.units(), y) ==> some_compares((a, b), op, y));
    assert(compares_so(op, b.units(), y) ==> some_compares((a, b), op, y));
    if op == CmpOp::Eq && a.units() <= y <= b.units() {
        assert(compares_so(op, y, y));
    }
}

/// What rules a shard out: both sides of `OR`, either side of `AND`, and a comparison with a number of a
/// column that has a range; nothing else does, and nothing where no ranges are known.
pub proof fn lemma_pruning_of_conditions(
    stats: StatsView,
    a: PredicateView,
    b: PredicateView,
    field: Seq<char>,
    op: CmpOp,
    value: JsonView,
)
    ensures
        can_match_spec(stats, PredicateView::And(Box::new(a), Box::new(b))) <==> can_match_spec(stats, a)
            && can_match_spec(stats, b),
        can_match_spec(stats, PredicateView::Or(Box::new(a), Box::new(b))) <==> can_match_spec(stats, a)
            || can_match_spec(stats, b),
        can_match_spec(stats, PredicateView::Not(Box::new(a))),
        can_match_spec(stats, PredicateView::True),
        !stats.dom().contains(field) || !(value is Number) ==> can_match_spec(
            stats,
            (PredicateView::Cmp { field, op, value }),
        ),
        plan::shard_matches(None, a),
        plan::shard_matches(Some(stats), a) <==> can_match_spec(stats, a),
{
}

/// The shards that are not ruled out are asked, all of them, in their order, and no others. The result
/// are their places.
pub proof fn lemma_asked_shards(shards: Seq<ShardView>, p: PredicateView) -> (places: Seq<int>)
    ensures
        places.len() == engine::live(shards, p).len(),
        forall|n: int|
            0 <= n < places.len() ==> 0 <= #[trigger] places[n] < shards.len() && engine::live(shards, p)[n]
                == shards[places[n]] && plan::shard_matches(shards[places[n]].stats, p),
        forall|m: int, n: int| 0 <= m < n < places.len() ==> #[trigger] places[m] < #[trigger] places[n],
        forall|i: int|
            0 <= i < shards.len() && plan::shard_matches((#[trigger] shards[i]).stats, p)
                ==> places.contains(i),
    decreases shards.len(),
{
    if shards.len() == 0 {
        Seq::empty()
    } else {
        let rest = shards.drop_last();
        let end = shards.len() - 1;
        let before = lemma_asked_shards(rest, p);
        assert forall|n: int| 0 <= n < before.len() implies 0 <= #[trigger] before[n] < rest.len()
            && rest[before[n]] == shards[before[n]] by {}
        let goes = plan::shard_matches(shards.last().stats, p);
        let places = if goes {
            before.push(end)
        } else {
            before
        };
        assert forall|i: int|
            0 <= i < shards.len() && plan::shard_matches((#[trigger] shards[i]).stats, p) implies places.contains(
        i) by {
            if i < end {
                assert(rest[i] == shards[i]);
                let n = before.index_of(i);
                assert(before.contains(i));
                assert(places[n] == i);
            } else {
                assert(places[before.len() as int] == i);
            }
        }
        places
    }
}

/// A task after so many failures.
pub open spec fn failed(task: TaskView, n: nat) -> TaskView
    decreases n,
{
    if n == 0 {
        task
    } else {
        failed(task, (n - 1) as nat).advanced()
    }
}

/// A task goes to the hosts of its ranking one after another, and to none after the last.
pub proof fn lemma_hosts_in_turn(task: TaskView, n: nat)
    requires
        task.attempt == 0,
        task.ranked_hosts.len() <= usize::MAX,
    ensures
        failed(task, n).ranked_hosts == task.ranked_hosts,
        failed(task, n).shard == task.shard,
        n < task.ranked_hosts.len() ==> failed(task, n).current() == Some(task.ranked_hosts[n as int])
            && failed(task, n).attempt == n,
        n >= task.ranked_hosts.len() ==> failed(task, n).current() is None && failed(task, n).attempt
            == task.ranked_hosts.len(),
    decreases n,
{
    if n > 0 {
        lemma_hosts_in_turn(task, (n - 1) as nat);
    }
}

/// A host is no worse for a shard than another: it has a higher score, or the same and no later name.
pub open spec fn no_worse(cid: Seq<char>, a: Seq<char>, b: Seq<char>) -> bool {
    let (x, y) = (plan::host_score(cid, a), plan::host_score(cid, b));
    x > y || (x == y && (a == b || text::precedes(a, b)))
}

/// A plan has one task for each shard, in their order, which starts at the best host for the shard.
pub proof fn lemma_plan(shards: Seq<ShardView>, hosts: Seq<Seq<char>>, i: int)
    requires
        0 <= i < shards.len(),
    ensures
        plan::planned(shards, hosts).len() == shards.len(),
        plan::planned(shards, hosts)[i].shard == shards[i],
        plan::planned(shards, hosts)[i].attempt == 0,
        plan::planned(shards, hosts)[i].ranked_hosts.to_multiset() == hosts.to_multiset(),
        forall|a: int, b: int|
            0 <= a < b < hosts.len() ==> no_worse(
                shards[i].cid,
                #[trigger] plan::planned(shards, hosts)[i].ranked_hosts[a],
                #[trigger] plan::planned(shards, hosts)[i].ranked_hosts[b],
            ),
{
    plan::lemma_ranking(shards[i].cid, hosts);
    let ranked = plan::planned(shards, hosts)[i].ranked_hosts;
    assert forall|a: int, b: int| 0 <= a < b < hosts.len() implies no_worse(
        shards[i].cid,
        #[trigger] ranked[a],
        #[trigger] ranked[b],
    ) by {
        text::lemma_order(ranked[a], ranked[b], ranked[a]);
    }
}

/// The load of a host is the number of tasks that are at it.
pub proof fn lemma_load(tasks: Seq<TaskView>, host: Seq<char>)
    ensures
        load_of(tasks, host) == tasks.filter(
            |t: TaskView| t.attempt < t.ranked_hosts.len() && t.ranked_hosts[t.attempt as int] == host,
        ).len(),
    decreases tasks.len(),
{
    let p = |t: TaskView| t.attempt < t.ranked_hosts.len() && t.ranked_hosts[t.attempt as int] == host;
    reveal(Seq::filter);
    if tasks.len() > 0 {
        lemma_load(tasks.drop_last(), host);
    }
}

} // verus!
