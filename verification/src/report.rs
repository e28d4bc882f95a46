//! What the command line asks for, and what it shows.

use crate::combine::{GroupResult, GroupView};
use crate::dataset::{Shard, ShardView};
use crate::engine::{CostLimits, RunConfig};
use crate::json::{Json, JsonView};
use crate::plan::{ShardTask, TaskView};
use crate::table;
use crate::table::{Duplicate, Table};
use crate::text;
use crate::text::{glue, write_decimal};
use vstd::prelude::*;
use vstd::string::*;

verus! {

/// The options of a run; 0 stands for no deadline and for the usual limits.
#[derive(Debug, Clone, Copy, PartialEq, Eq, Structural)]
pub struct RunOptions {
    pub max_attempts: usize,
    pub concurrency: usize,
    pub redundancy: usize,
    pub quorum: usize,
    pub deadline_ms: u64,
    pub max_scan_bytes: u64,
    pub max_scan_rows: u64,
}

/// `n`, or `usual` where that is 0.
pub open spec fn or_usual(n: u64, usual: u64) -> u64 {
    if n == 0 {
        usual
    } else {
        n
    }
}

/// How a query is run with these options.
pub fn run_config(o: &RunOptions) -> (r: RunConfig)
    ensures
        r == (RunConfig {
            max_attempts_per_shard: o.max_attempts,
            max_in_flight: o.concurrency,
            redundancy: o.redundancy,
            quorum: o.quorum,
            deadline: if o.deadline_ms == 0 {
                None
            } else {
                Some(o.deadline_ms)
            },
            limits: CostLimits {
                max_scan_bytes: or_usual(o.max_scan_bytes, 17_179_869_184),
                max_scan_rows: or_usual(o.max_scan_rows, 1_000_000_000),
                max_shards: 4096,
                max_result_groups: 1_000_000,
            },
        }),
{
    let mut limits: CostLimits = CostLimits::default();
    if o.max_scan_bytes != 0 {
        limits.max_scan_bytes = o.max_scan_bytes;
    }
    if o.max_scan_rows != 0 {
        limits.max_scan_rows = o.max_scan_rows;
    }
    RunConfig {
        max_attempts_per_shard: o.max_attempts,
        max_in_flight: o.concurrency,
        redundancy: o.redundancy,
        quorum: o.quorum,
        deadline: if o.deadline_ms == 0 {
            None
        } else {
            Some(o.deadline_ms)
        },
        limits,
    }
}

/// The first `n` key columns of a group, empty where the key has fewer.
pub open spec fn key_columns(group_by: Seq<Seq<char>>, key: Seq<Seq<char>>, n: nat) -> Map<
    Seq<char>,
    JsonView,
>
    decreases n,
{
    if n == 0 {
        Map::empty()
    } else {
        key_columns(group_by, key, (n - 1) as nat).insert(
            group_by[n - 1],
            JsonView::String(
                if n - 1 < key.len() {
                    key[n - 1]
                } else {
                    Seq::empty()
                },
            ),
        )
    }
}

/// A group of the result as one object: its key columns, and its values, which stand where a name is
/// both.
pub open spec fn object_of(group_by: Seq<Seq<char>>, g: GroupView) -> Map<Seq<char>, JsonView> {
    key_columns(group_by, g.key, group_by.len()).union_prefer_right(g.values)
}

/// A group of the result as one object.
pub fn group_object(group_by: &Vec<String>, g: &GroupResult) -> (r: Table<String, Json>)
    ensures
        r.contents() == object_of(group_by.deep_view(), g.deep_view()),
{
    let ghost names = group_by.deep_view();
    let ghost key = g.key.deep_view();
    let mut out: Table<String, Json> = Table::new();
    let mut i: usize = 0;
    while i < group_by.len()
        invariant
            i <= group_by@.len(),
            names == group_by.deep_view(),
            key == g.key.deep_view(),
            out.contents() == key_columns(names, key, i as nat),
        decreases group_by@.len() - i,
    {
        let part: String = if i < g.key.len() {
            g.key[i].clone()
        } else {
            String::new()
        };
        proof {
            assert(names[i as int] == group_by@[i as int]@);
            assert(i < key.len() ==> key[i as int] == g.key@[i as int]@);
        }
        out.insert(group_by[i].clone(), Json::String(part));
        i = i + 1;
    }
    let ghost base = out.contents();
    let n: usize = g.values.len();
    let ghost columns = g.values.keys();
    let mut k: usize = 0;
    while k < n
        invariant
            k <= n == columns.len(),
            columns == g.values.keys(),
            g.values.values().len() == n,
            table::lists::<String>(columns, g.values.contents().dom()),
            forall|j: int|
                0 <= j < n ==> g.values.contents()[#[trigger] g.values.keys()[j]]
                    == g.values.values()[j],
            forall|c: Seq<char>| #[trigger]
                out.contents().dom().contains(c) <==> base.dom().contains(c) || columns.take(
                    k as int,
                ).contains(c),
            forall|c: Seq<char>|
                out.contents().dom().contains(c) ==> #[trigger] out.contents()[c] == (
                if columns.take(k as int).contains(c) {
                    g.values.contents()[c]
                } else {
                    base[c]
                }),
        decreases n - k,
    {
        let ghost s = columns.take(k as int);
        let ghost name = columns[k as int];
        proof {
            assert(columns.take(k + 1) =~= s.push(name));
            assert(g.values.contents()[g.values.keys()[k as int]] == g.values.values()[k as int]);
            assert forall|c: Seq<char>| #[trigger]
                s.push(name).contains(c) <==> s.contains(c) || c == name by {
                if s.contains(c) {
                    assert(s.push(name)[s.index_of(c)] == c);
                }
                assert(s.push(name)[k as int] == name);
                if s.push(name).contains(c) && c != name {
                    assert(s[s.push(name).index_of(c)] == c);
                }
            }
        }
        let ghost was = out.contents();
        out.insert(g.values.key_at(k).clone(), g.values.value_at(k).duplicate());
        proof {
            let now = out.contents();
            assert forall|c: Seq<char>| #[trigger]
                now.dom().contains(c) <==> base.dom().contains(c) || columns.take(k + 1).contains(c) by {
                assert(was.dom().contains(c) <==> base.dom().contains(c) || s.contains(c));
            }
            assert forall|c: Seq<char>| now.dom().contains(c) implies #[trigger] now[c] == (
            if columns.take(k + 1).contains(c) {
                g.values.contents()[c]
            } else {
                base[c]
            }) by {
                if c != name {
                    assert(was.dom().contains(c));
                    assert(now[c] == was[c]);
                }
            }
        }
        k = k + 1;
    }
    proof {
        assert(columns.take(n as int) =~= columns);
        assert(out.contents() =~= base.union_prefer_right(g.values.contents()));
    }
    out
}

/// The line about a run for aggregates.
pub open spec fn run_line(shards: nat, attempts: nat, redistributed: nat, verified: nat) -> Seq<char> {
    text::glued(
        seq![
            "["@,
            text::decimal_text(shards),
            " shard(s), "@,
            text::decimal_text(attempts),
            " attempt(s), "@,
            text::decimal_text(redistributed),
            " redistributed, "@,
            text::decimal_text(verified),
            " verified]"@,
        ],
    )
}

/// The line about a run for aggregates.
pub fn run_summary(shards: usize, attempts: usize, redistributed: usize, verified: usize) -> (r: String)
    ensures
        r@ == run_line(shards as nat, attempts as nat, redistributed as nat, verified as nat),
{
    let parts: Vec<String> = vec![
        "[".to_owned(),
        write_decimal(shards as u128),
        " shard(s), ".to_owned(),
        write_decimal(attempts as u128),
        " attempt(s), ".to_owned(),
        write_decimal(redistributed as u128),
        " redistributed, ".to_owned(),
        write_decimal(verified as u128),
        " verified]".to_owned(),
    ];
    proof {
        assert(parts.deep_view() =~= seq![
            "["@,
            text::decimal_text(shards as nat),
            " shard(s), "@,
            text::decimal_text(attempts as nat),
            " attempt(s), "@,
            text::decimal_text(redistributed as nat),
            " redistributed, "@,
            text::decimal_text(verified as nat),
            " verified]"@,
        ]);
    }
    glue(&parts)
}

/// The line about a run for rows.
pub open spec fn rows_line(shards: nat, attempts: nat, rows: nat, truncated: bool) -> Seq<char> {
    text::glued(
        seq![
            "["@,
            text::decimal_text(shards),
            " shard(s), "@,
            text::decimal_text(attempts),
            " attempt(s), "@,
            text::decimal_text(rows),
            if truncated {
                " row(s), truncated]"@
            } else {
                " row(s)]"@
            },
        ],
    )
}

/// The line about a run for rows.
pub fn rows_summary(shards: usize, attempts: usize, rows: usize, truncated: bool) -> (r: String)
    ensures
        r@ == rows_line(shards as nat, attempts as nat, rows as nat, truncated),
{
    let end: String = if truncated {
        " row(s), truncated]".to_owned()
    } else {
        " row(s)]".to_owned()
    };
    let parts: Vec<String> = vec![
        "[".to_owned(),
        write_decimal(shards as u128),
        " shard(s), ".to_owned(),
        write_decimal(attempts as u128),
        " attempt(s), ".to_owned(),
        write_decimal(rows as u128),
        end,
    ];
    proof {
        assert(parts.deep_view() =~= seq![
            "["@,
            text::decimal_text(shards as nat),
            " shard(s), "@,
            text::decimal_text(attempts as nat),
            " attempt(s), "@,
            text::decimal_text(rows as nat),
            if truncated {
                " row(s), truncated]"@
            } else {
                " row(s)]"@
            },
        ]);
    }
    glue(&parts)
}

/// A shard in words.
pub open spec fn shard_text(s: ShardView) -> Seq<char> {
    text::glued(
        seq![
            s.cid,
            " ("@,
            text::decimal_text(s.rows as nat),
            " rows, "@,
            text::decimal_text(s.bytes as nat),
            " bytes)"@,
        ],
    )
}

/// A shard in words.
pub fn describe_shard(s: &Shard) -> (r: String)
    ensures
        r@ == shard_text(s.deep_view()),
{
    let parts: Vec<String> = vec![
        s.cid.clone(),
        " (".to_owned(),
        write_decimal(s.rows as u128),
        " rows, ".to_owned(),
        write_decimal(s.bytes as u128),
        " bytes)".to_owned(),
    ];
    proof {
        assert(parts.deep_view() =~= seq![
            s.cid@,
            " ("@,
            text::decimal_text(s.rows as nat),
            " rows, "@,
            text::decimal_text(s.bytes as nat),
            " bytes)"@,
        ]);
    }
    glue(&parts)
}

/// Names with a comma between two.
pub open spec fn listed(names: Seq<Seq<char>>) -> Seq<char>
    decreases names.len(),
{
    if names.len() == 0 {
        Seq::empty()
    } else if names.len() == 1 {
        names[0]
    } else {
        text::glued(seq![listed(names.drop_last()), ", "@, names.last()])
    }
}

/// A host in words.
pub open spec fn host_text(host: Option<Seq<char>>) -> Seq<char> {
    match host {
        Some(h) => h,
        None => "<none>"@,
    }
}

/// The hosts but the first.
pub open spec fn stand_ins(hosts: Seq<Seq<char>>) -> Seq<Seq<char>> {
    if hosts.len() == 0 {
        hosts
    } else {
        hosts.skip(1)
    }
}

/// What a task says of its hosts: which has the shard, and which stand in for it.
pub open spec fn task_text(t: TaskView) -> Seq<char> {
    text::glued(
        seq![
            t.shard.cid,
            " -> "@,
            host_text(t.current()),
            " (fallbacks: "@,
            listed(stand_ins(t.ranked_hosts)),
            ")"@,
        ],
    )
}

fn write_fallbacks(hosts: &Vec<String>) -> (r: String)
    ensures
        r@ == listed(stand_ins(hosts.deep_view())),
{
    let ghost all = hosts.deep_view();
    let n: usize = hosts.len();
    if n < 2 {
        proof {
            if n == 1 {
                assert(all.skip(1) =~= Seq::<Seq<char>>::empty());
            }
        }
        return String::new();
    }
    let mut out: String = hosts[1].clone();
    let mut i: usize = 2;
    proof {
        assert(all.subrange(1, 2)[0] == all[1]);
    }
    while i < n
        invariant
            2 <= i <= n == hosts@.len(),
            all == hosts.deep_view(),
            out@ == listed(all.subrange(1, i as int)),
        decreases n - i,
    {
        let ghost before = all.subrange(1, i as int);
        let parts: Vec<String> = vec![out, ", ".to_owned(), hosts[i].clone()];
        proof {
            let next = all.subrange(1, i + 1);
            assert(next.drop_last() =~= before);
            assert(next.last() == hosts@[i as int]@);
            assert(parts.deep_view() =~= seq![listed(before), ", "@, next.last()]);
        }
        out = glue(&parts);
        i = i + 1;
    }
    proof {
        assert(all.subrange(1, n as int) =~= all.skip(1));
    }
    out
}

/// What a task says of its hosts.
pub fn describe_task(t: &ShardTask) -> (r: String)
    ensures
        r@ == task_text(t.deep_view()),
{
    let host: String = match t.host() {
        Some(h) => h.to_owned(),
        None => "<none>".to_owned(),
    };
    let parts: Vec<String> = vec![
        t.shard.cid.clone(),
        " -> ".to_owned(),
        host,
        " (fallbacks: ".to_owned(),
        write_fallbacks(&t.ranked_hosts),
        ")".to_owned(),
    ];
    proof {
        assert(parts.deep_view() =~= seq![
            t.shard.cid@,
            " -> "@,
            host_text(t.deep_view().current()),
            " (fallbacks: "@,
            listed(stand_ins(t.deep_view().ranked_hosts)),
            ")"@,
        ]);
    }
    glue(&parts)
}

/// The words for no hosts.
pub fn no_hosts_message(distributed: bool) -> (r: String)
    ensures
        r@ == (if distributed {
            "no candidate hosts found (atlas empty for the ce-query service). Is the node running and mining?"@
        } else {
            "no candidate hosts found (atlas empty). Is the node running and mining?"@
        }),
{
    if distributed {
        "no candidate hosts found (atlas empty for the ce-query service). Is the node running and mining?".to_owned()
    } else {
        "no candidate hosts found (atlas empty). Is the node running and mining?".to_owned()
    }
}

} // verus!
