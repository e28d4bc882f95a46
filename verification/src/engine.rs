//! The coordination of a query: which host is asked next, when a shard is given up, when copies
//! agree, and what the answer is.
//!
//! Nothing here waits or sends. A [`Walk`] says what to do next for a shard and is told what came
//! back; [`start_run`] and [`finish_run`] frame a query for aggregates, [`start_projection`],
//! [`ProjectionReport::collect`] and [`ProjectionReport::finish`] one for rows.

use crate::algebra;
use crate::combine;
use crate::combine::{reduce, GroupResult, GroupView, Partial, PartialView};
use crate::dataset;
use crate::dataset::{Row, RowView, Shard, ShardView};
use crate::means;
use crate::order;
use crate::order::order_raw_rows;
use crate::plan;
use crate::plan::{plan, shard_can_match, ShardTask, TaskView};
use crate::query;
use crate::query::{Predicate, PredicateView, Query, QueryError, QueryView};
use crate::quorum;
use crate::quorum::{select_copy, QuorumError};
use crate::table::{Duplicate, Table};
use crate::text;
use crate::text::{glue, write_decimal};
use vstd::prelude::*;
use vstd::string::*;

verus! {

/// Why a host did not answer. Any of these means that the next host is tried.
#[derive(Debug, Clone, PartialEq, Eq)]
pub enum MapError {
    /// No answer in time.
    Timeout,
    /// The host answered with an error.
    HostError(String),
    /// The host does not have the shard.
    MissingBlob(String),
    /// The answer could not be read.
    Corrupt(String),
}

/// What a [`MapError`] stands for.
pub enum MapErrorView {
    Timeout,
    HostError(Seq<char>),
    MissingBlob(Seq<char>),
    Corrupt(Seq<char>),
}

impl DeepView for MapError {
    type V = MapErrorView;

    open spec fn deep_view(&self) -> MapErrorView {
        match self {
            MapError::Timeout => MapErrorView::Timeout,
            MapError::HostError(s) => MapErrorView::HostError(s@),
            MapError::MissingBlob(s) => MapErrorView::MissingBlob(s@),
            MapError::Corrupt(s) => MapErrorView::Corrupt(s@),
        }
    }
}

impl Duplicate for MapError {
    fn duplicate(&self) -> (r: Self) {
        match self {
            MapError::Timeout => MapError::Timeout,
            MapError::HostError(s) => MapError::HostError(s.clone()),
            MapError::MissingBlob(s) => MapError::MissingBlob(s.clone()),
            MapError::Corrupt(s) => MapError::Corrupt(s.clone()),
        }
    }
}

impl MapErrorView {
    /// The words of the error.
    pub open spec fn words(self) -> Seq<char> {
        match self {
            MapErrorView::Timeout => "timeout"@,
            MapErrorView::HostError(s) => text::glued(seq!["host error: "@, s]),
            MapErrorView::MissingBlob(s) => text::glued(seq!["missing blob: "@, s]),
            MapErrorView::Corrupt(s) => text::glued(seq!["corrupt result: "@, s]),
        }
    }
}

/// Two strings one after the other.
fn glue2(a: &str, b: &str) -> (r: String)
    ensures
        r@ == text::glued(seq![a@, b@]),
{
    let parts: Vec<String> = vec![a.to_owned(), b.to_owned()];
    proof {
        assert(parts.deep_view() =~= seq![a@, b@]);
    }
    glue(&parts)
}

impl MapError {
    /// The words of the error.
    pub fn message(&self) -> (r: String)
        ensures
            r@ == self.deep_view().words(),
    {
        match self {
            MapError::Timeout => "timeout".to_owned(),
            MapError::HostError(s) => glue2("host error: ", s.as_str()),
            MapError::MissingBlob(s) => glue2("missing blob: ", s.as_str()),
            MapError::Corrupt(s) => glue2("corrupt result: ", s.as_str()),
        }
    }
}

/// Limits on what a query may cost; 0 stands for no limit.
#[derive(Debug, Clone, Copy, PartialEq, Eq, Structural)]
pub struct CostLimits {
    /// Bytes of all shards together.
    pub max_scan_bytes: u64,
    /// Rows of all shards together.
    pub max_scan_rows: u64,
    /// Shards.
    pub max_shards: usize,
    /// Groups, or rows, of the result.
    pub max_result_groups: usize,
}

impl Default for CostLimits {
    fn default() -> (r: CostLimits)
        ensures
            r.max_scan_bytes == 17_179_869_184,
            r.max_scan_rows == 1_000_000_000,
            r.max_shards == 4096,
            r.max_result_groups == 1_000_000,
    {
        CostLimits {
            max_scan_bytes: 17_179_869_184,
            max_scan_rows: 1_000_000_000,
            max_shards: 4096,
            max_result_groups: 1_000_000,
        }
    }
}

/// A limit that a query exceeds: which, by what, and what it is.
#[derive(Debug, Clone, PartialEq, Eq)]
pub struct CostError {
    pub what: String,
    pub actual: u64,
    pub limit: u64,
}

/// What a [`CostError`] stands for.
pub struct CostErrorView {
    pub what: Seq<char>,
    pub actual: u64,
    pub limit: u64,
}

impl DeepView for CostError {
    type V = CostErrorView;

    open spec fn deep_view(&self) -> CostErrorView {
        CostErrorView { what: self.what@, actual: self.actual, limit: self.limit }
    }
}

impl CostErrorView {
    /// The words of the error.
    pub open spec fn words(self) -> Seq<char> {
        text::glued(
            seq![
                "query cost limit exceeded: "@,
                self.what,
                " = "@,
                text::decimal_text(self.actual as nat),
                " > limit "@,
                text::decimal_text(self.limit as nat),
            ],
        )
    }
}

impl CostError {
    /// The words of the error.
    pub fn message(&self) -> (r: String)
        ensures
            r@ == self.deep_view().words(),
    {
        let parts: Vec<String> = vec![
            "query cost limit exceeded: ".to_owned(),
            self.what.clone(),
            " = ".to_owned(),
            write_decimal(self.actual as u128),
            " > limit ".to_owned(),
            write_decimal(self.limit as u128),
        ];
        proof {
            assert(parts.deep_view() =~= seq![
                "query cost limit exceeded: "@,
                self.what@,
                " = "@,
                text::decimal_text(self.actual as nat),
                " > limit "@,
                text::decimal_text(self.limit as nat),
            ]);
        }
        glue(&parts)
    }
}

/// A total as far as it can be told.
pub open spec fn capped(n: nat) -> u64 {
    if n > u64::MAX {
        u64::MAX
    } else {
        n as u64
    }
}

/// The first limit that shards exceed: their number, their rows, their bytes.
pub open spec fn scan_cost(limits: CostLimits, shards: Seq<ShardView>) -> Result<(), CostErrorView> {
    let rows = capped(dataset::rows_of(shards));
    let bytes = capped(dataset::bytes_of_shards(shards));
    if limits.max_shards != 0 && shards.len() > limits.max_shards {
        Err(
            CostErrorView {
                what: "shards"@,
                actual: shards.len() as u64,
                limit: limits.max_shards as u64,
            },
        )
    } else if limits.max_scan_rows != 0 && rows > limits.max_scan_rows {
        Err(CostErrorView { what: "rows scanned"@, actual: rows, limit: limits.max_scan_rows })
    } else if limits.max_scan_bytes != 0 && bytes > limits.max_scan_bytes {
        Err(CostErrorView { what: "bytes scanned"@, actual: bytes, limit: limits.max_scan_bytes })
    } else {
        Ok(())
    }
}

/// What a result stands for.
pub open spec fn cost_outcome(r: Result<(), CostError>) -> Result<(), CostErrorView> {
    match r {
        Ok(()) => Ok(()),
        Err(e) => Err(e.deep_view()),
    }
}

impl CostLimits {
    /// No limits.
    pub fn unlimited() -> (r: CostLimits)
        ensures
            r == (CostLimits {
                max_scan_bytes: 0,
                max_scan_rows: 0,
                max_shards: 0,
                max_result_groups: 0,
            }),
    {
        CostLimits { max_scan_bytes: 0, max_scan_rows: 0, max_shards: 0, max_result_groups: 0 }
    }

    /// Whether shards stay within the limits; the first that they exceed.
    pub fn check_scan(&self, shards: &[Shard]) -> (r: Result<(), CostError>)
        ensures
            cost_outcome(r) == scan_cost(*self, shards.deep_view()),
    {
        if self.max_shards != 0 && shards.len() > self.max_shards {
            return Err(
                CostError {
                    what: "shards".to_owned(),
                    actual: shards.len() as u64,
                    limit: self.max_shards as u64,
                },
            );
        }
        let ghost all = shards.deep_view();
        let mut rows: u64 = 0;
        let mut bytes: u64 = 0;
        let mut i: usize = 0;
        proof {
            assert(all.take(0) =~= Seq::<ShardView>::empty());
        }
        while i < shards.len()
            invariant
                i <= shards@.len(),
                all == shards.deep_view(),
                rows == capped(dataset::rows_of(all.take(i as int))),
                bytes == capped(dataset::bytes_of_shards(all.take(i as int))),
            decreases shards@.len() - i,
        {
            proof {
                assert(all.take(i + 1).drop_last() =~= all.take(i as int));
                assert(all.take(i + 1).last() == shards@[i as int].deep_view());
            }
            rows = rows.saturating_add(shards[i].rows);
            bytes = bytes.saturating_add(shards[i].bytes);
            i = i + 1;
        }
        proof {
            assert(all.take(all.len() as int) =~= all);
        }
        if self.max_scan_rows != 0 && rows > self.max_scan_rows {
            return Err(
                CostError {
                    what: "rows scanned".to_owned(),
                    actual: rows,
                    limit: self.max_scan_rows,
                },
            );
        }
        if self.max_scan_bytes != 0 && bytes > self.max_scan_bytes {
            return Err(
                CostError {
                    what: "bytes scanned".to_owned(),
                    actual: bytes,
                    limit: self.max_scan_bytes,
                },
            );
        }
        Ok(())
    }
}

/// How a query is run.
#[derive(Debug, Clone, Copy, PartialEq, Eq, Structural)]
pub struct RunConfig {
    /// The most hosts that are tried for a shard; 0 is taken as 1.
    pub max_attempts_per_shard: usize,
    /// The most shards that are worked on at once; 0 is taken as 1.
    pub max_in_flight: usize,
    /// From how many hosts a copy of each partial result is wanted; 0 is taken as 1.
    pub redundancy: usize,
    /// How many copies must agree; 0 stands for all.
    pub quorum: usize,
    /// After how many milliseconds the query is given up.
    pub deadline: Option<u64>,
    pub limits: CostLimits,
}

impl Default for RunConfig {
    fn default() -> (r: RunConfig)
        ensures
            r.max_attempts_per_shard == 4,
            r.max_in_flight == 16,
            r.redundancy == 1,
            r.quorum == 0,
            r.deadline is None,
            r.limits.max_scan_bytes == 17_179_869_184,
            r.limits.max_scan_rows == 1_000_000_000,
            r.limits.max_shards == 4096,
            r.limits.max_result_groups == 1_000_000,
    {
        RunConfig {
            max_attempts_per_shard: 4,
            max_in_flight: 16,
            redundancy: 1,
            quorum: 0,
            deadline: None,
            limits: CostLimits::default(),
        }
    }
}

/// `n`, or 1 where that is 0.
pub open spec fn one_at_least(n: usize) -> usize {
    if n == 0 {
        1
    } else {
        n
    }
}

fn at_least_one(n: usize) -> (r: usize)
    ensures
        r == one_at_least(n),
{
    if n == 0 {
        1
    } else {
        n
    }
}

/// Whether the time is up, `elapsed` milliseconds into the query.
pub open spec fn time_up(config: RunConfig, elapsed: u64) -> bool {
    config.deadline is Some && elapsed >= config.deadline->0
}

/// Why a query has no answer.
#[derive(Debug, Clone, PartialEq, Eq)]
pub enum EngineError {
    /// The query cannot be run.
    Invalid(QueryError),
    /// The query is not for rows.
    NotProjection,
    /// There are no hosts.
    NoHosts,
    /// The query costs too much.
    Cost(CostError),
    /// The time is up; whether rows or aggregates were asked for, the deadline in milliseconds, and
    /// the shard.
    Late { scanning: bool, deadline: u64, cid: String },
    /// The time was up when every shard was done; the deadline in milliseconds.
    Overdue { deadline: u64 },
    /// No host answered for a shard; how many there are, and what the last one said.
    Unserved { cid: String, hosts: usize, last: Option<MapError> },
    /// Copies of the partial result of a shard do not agree.
    Disagreed { cid: String, best: usize, copies: usize, need: usize },
}

/// What an [`EngineError`] stands for.
pub enum EngineErrorView {
    Invalid(QueryError),
    NotProjection,
    NoHosts,
    Cost(CostErrorView),
    Late { scanning: bool, deadline: u64, cid: Seq<char> },
    Overdue { deadline: u64 },
    Unserved { cid: Seq<char>, hosts: nat, last: Option<MapErrorView> },
    Disagreed { cid: Seq<char>, best: nat, copies: nat, need: nat },
}

impl DeepView for EngineError {
    type V = EngineErrorView;

    open spec fn deep_view(&self) -> EngineErrorView {
        match self {
            EngineError::Invalid(e) => EngineErrorView::Invalid(*e),
            EngineError::NotProjection => EngineErrorView::NotProjection,
            EngineError::NoHosts => EngineErrorView::NoHosts,
            EngineError::Cost(e) => EngineErrorView::Cost(e.deep_view()),
            EngineError::Late { scanning, deadline, cid } => EngineErrorView::Late {
                scanning: *scanning,
                deadline: *deadline,
                cid: cid@,
            },
            EngineError::Overdue { deadline } => EngineErrorView::Overdue { deadline: *deadline },
            EngineError::Unserved { cid, hosts, last } => EngineErrorView::Unserved {
                cid: cid@,
                hosts: *hosts as nat,
                last: last.deep_view(),
            },
            EngineError::Disagreed { cid, best, copies, need } => EngineErrorView::Disagreed {
                cid: cid@,
                best: *best as nat,
                copies: *copies as nat,
                need: *need as nat,
            },
        }
    }
}

/// The digits of a number of thousandths, without the zeros at the end.
pub open spec fn thousandths(n: int) -> Seq<char> {
    let a = text::digit_char(n / 100);
    let b = text::digit_char(n / 10 % 10);
    let c = text::digit_char(n % 10);
    if n % 100 == 0 {
        seq![a]
    } else if n % 10 == 0 {
        seq![a, b]
    } else {
        seq![a, b, c]
    }
}

/// A span of milliseconds in words.
pub open spec fn span_text(ms: u64) -> Seq<char> {
    if ms == 0 {
        "0ns"@
    } else if ms < 1000 {
        text::glued(seq![text::decimal_text(ms as nat), "ms"@])
    } else if ms % 1000 == 0 {
        text::glued(seq![text::decimal_text((ms / 1000) as nat), "s"@])
    } else {
        text::glued(
            seq![
                text::decimal_text((ms / 1000) as nat),
                "."@,
                thousandths((ms % 1000) as int),
                "s"@,
            ],
        )
    }
}

/// A span of milliseconds in words.
fn write_span(ms: u64) -> (r: String)
    ensures
        r@ == span_text(ms),
{
    if ms == 0 {
        return "0ns".to_owned();
    }
    if ms < 1000 {
        return glue2(write_decimal(ms as u128).as_str(), "ms");
    }
    if ms % 1000 == 0 {
        return glue2(write_decimal((ms / 1000) as u128).as_str(), "s");
    }
    let n: u64 = ms % 1000;
    let mut part: String = String::new();
    part.push((48 + (n / 100) as u8) as char);
    if n % 100 != 0 {
        part.push((48 + (n / 10 % 10) as u8) as char);
    }
    if n % 10 != 0 {
        part.push((48 + (n % 10) as u8) as char);
    }
    proof {
        assert(n % 10 != 0 ==> n % 100 != 0);
        assert(part@ =~= thousandths(n as int));
    }
    let parts: Vec<String> = vec![
        write_decimal((ms / 1000) as u128),
        ".".to_owned(),
        part,
        "s".to_owned(),
    ];
    proof {
        assert(parts.deep_view() =~= seq![
            text::decimal_text((ms / 1000) as nat),
            "."@,
            thousandths(n as int),
            "s"@,
        ]);
    }
    glue(&parts)
}

/// What the last host said.
pub open spec fn said(last: Option<MapErrorView>) -> Seq<char> {
    match last {
        Some(e) => e.words(),
        None => "unknown"@,
    }
}

impl EngineErrorView {
    /// The words of the error.
    pub open spec fn words(self) -> Seq<char> {
        match self {
            EngineErrorView::Invalid(e) => e.words(),
            EngineErrorView::NotProjection => "run_projection called on a non-projection query"@,
            EngineErrorView::NoHosts => "no candidate hosts to run the query on"@,
            EngineErrorView::Cost(e) => e.words(),
            EngineErrorView::Late { scanning, deadline, cid } => text::glued(
                seq![
                    "query deadline ("@,
                    span_text(deadline),
                    if scanning {
                        ") exceeded while scanning shard "@
                    } else {
                        ") exceeded while mapping shard "@
                    },
                    cid,
                ],
            ),
            EngineErrorView::Overdue { deadline } => text::glued(
                seq!["query deadline ("@, span_text(deadline), ") exceeded"@],
            ),
            EngineErrorView::Unserved { cid, hosts, last } => text::glued(
                seq![
                    "shard "@,
                    cid,
                    " could not be served by any of "@,
                    text::decimal_text(hosts),
                    " candidate host(s) (last error: "@,
                    said(last),
                    ")"@,
                ],
            ),
            EngineErrorView::Disagreed { cid, best, copies, need } => text::glued(
                seq![
                    "verifying shard "@,
                    cid,
                    ": redundant hosts disagreed: best agreement was "@,
                    text::decimal_text(best),
                    " of "@,
                    text::decimal_text(copies),
                    " copies, needed "@,
                    text::decimal_text(need),
                    " — possible corrupt or malicious host"@,
                ],
            ),
        }
    }
}

impl EngineError {
    /// The words of the error.
    pub fn message(&self) -> (r: String)
        ensures
            r@ == self.deep_view().words(),
    {
        match self {
            EngineError::Invalid(e) => e.message(),
            EngineError::NotProjection => "run_projection called on a non-projection query".to_owned(),
            EngineError::NoHosts => "no candidate hosts to run the query on".to_owned(),
            EngineError::Cost(e) => e.message(),
            EngineError::Late { scanning, deadline, cid } => {
                let doing: String = if *scanning {
                    ") exceeded while scanning shard ".to_owned()
                } else {
                    ") exceeded while mapping shard ".to_owned()
                };
                let parts: Vec<String> = vec![
                    "query deadline (".to_owned(),
                    write_span(*deadline),
                    doing,
                    cid.clone(),
                ];
                proof {
                    assert(parts.deep_view() =~= seq![
                        "query deadline ("@,
                        span_text(*deadline),
                        if *scanning {
                            ") exceeded while scanning shard "@
                        } else {
                            ") exceeded while mapping shard "@
                        },
                        cid@,
                    ]);
                }
                glue(&parts)
            },
            EngineError::Overdue { deadline } => {
                let parts: Vec<String> = vec![
                    "query deadline (".to_owned(),
                    write_span(*deadline),
                    ") exceeded".to_owned(),
                ];
                proof {
                    assert(parts.deep_view() =~= seq![
                        "query deadline ("@,
                        span_text(*deadline),
                        ") exceeded"@,
                    ]);
                }
                glue(&parts)
            },
            EngineError::Unserved { cid, hosts, last } => {
                let reason: String = match last {
                    Some(e) => e.message(),
                    None => "unknown".to_owned(),
                };
                assert(reason@ == said(last.deep_view()));
                let parts: Vec<String> = vec![
                    "shard ".to_owned(),
                    cid.clone(),
                    " could not be served by any of ".to_owned(),
                    write_decimal(*hosts as u128),
                    " candidate host(s) (last error: ".to_owned(),
                    reason,
                    ")".to_owned(),
                ];
                proof {
                    assert(parts.deep_view() =~= seq![
                        "shard "@,
                        cid@,
                        " could not be served by any of "@,
                        text::decimal_text(*hosts as nat),
                        " candidate host(s) (last error: "@,
                        said(last.deep_view()),
                        ")"@,
                    ]);
                }
                glue(&parts)
            },
            EngineError::Disagreed { cid, best, copies, need } => {
                let parts: Vec<String> = vec![
                    "verifying shard ".to_owned(),
                    cid.clone(),
                    ": redundant hosts disagreed: best agreement was ".to_owned(),
                    write_decimal(*best as u128),
                    " of ".to_owned(),
                    write_decimal(*copies as u128),
                    " copies, needed ".to_owned(),
                    write_decimal(*need as u128),
                    " — possible corrupt or malicious host".to_owned(),
                ];
                proof {
                    assert(parts.deep_view() =~= seq![
                        "verifying shard "@,
                        cid@,
                        ": redundant hosts disagreed: best agreement was "@,
                        text::decimal_text(*best as nat),
                        " of "@,
                        text::decimal_text(*copies as nat),
                        " copies, needed "@,
                        text::decimal_text(*need as nat),
                        " — possible corrupt or malicious host"@,
                    ]);
                }
                glue(&parts)
            },
        }
    }
}


/// What to do next for a shard.
#[derive(Debug, Clone, PartialEq, Eq)]
pub enum Step {
    /// Ask this host.
    Ask(String),
    /// Give up: the time is up.
    Late,
    /// No more hosts are to be asked.
    Finished,
}

/// What a [`Step`] stands for.
pub enum StepView {
    Ask(Seq<char>),
    Late,
    Finished,
}

impl DeepView for Step {
    type V = StepView;

    open spec fn deep_view(&self) -> StepView {
        match self {
            Step::Ask(h) => StepView::Ask(h@),
            Step::Late => StepView::Late,
            Step::Finished => StepView::Finished,
        }
    }
}

/// The way of one shard along its hosts: how many were asked, what the last of them said if it
/// failed, and the copies of the answer so far with the hosts that gave them.
#[derive(Debug)]
pub struct Walk<T> {
    pub task: ShardTask,
    pub attempts: usize,
    pub last_err: Option<MapError>,
    pub copies: Vec<(String, T)>,
    pub finished: bool,
}

/// What a [`Walk`] stands for.
pub struct WalkView<V> {
    pub task: TaskView,
    pub attempts: usize,
    pub last_err: Option<MapErrorView>,
    pub copies: Seq<(Seq<char>, V)>,
    pub finished: bool,
}

impl<T: DeepView> DeepView for Walk<T> {
    type V = WalkView<T::V>;

    open spec fn deep_view(&self) -> WalkView<T::V> {
        WalkView {
            task: self.task.deep_view(),
            attempts: self.attempts,
            last_err: self.last_err.deep_view(),
            copies: self.copies.deep_view(),
            finished: self.finished,
        }
    }
}

/// The walk before any host was asked.
pub open spec fn walk_start<V>(task: TaskView) -> WalkView<V> {
    WalkView { task, attempts: 0, last_err: None, copies: Seq::empty(), finished: false }
}

impl<V> WalkView<V> {
    /// What to do next, `elapsed` milliseconds into the query. An answer that comes when the time is
    /// up comes too late.
    pub open spec fn next(self, config: RunConfig, elapsed: u64) -> StepView {
        if time_up(config, elapsed) {
            StepView::Late
        } else if self.finished {
            StepView::Finished
        } else {
            match self.task.current() {
                None => StepView::Finished,
                Some(h) => if self.attempts >= one_at_least(config.max_attempts_per_shard) {
                    StepView::Finished
                } else {
                    StepView::Ask(h)
                },
            }
        }
    }

    /// The walk with one more host asked.
    pub open spec fn asked(self) -> WalkView<V> {
        WalkView { attempts: (self.attempts + 1) as usize, ..self }
    }

    /// The walk after the host that was asked gave an answer, where `wanted` copies are wanted.
    pub open spec fn told(self, wanted: usize, reply: Result<V, MapErrorView>) -> WalkView<V> {
        match reply {
            Ok(v) => {
                let copies = self.copies.push((self.task.current()->0, v));
                if copies.len() >= one_at_least(wanted) {
                    WalkView { copies, last_err: None, finished: true, ..self }
                } else {
                    WalkView {
                        copies,
                        last_err: None,
                        task: self.task.advanced(),
                        finished: self.task.advanced().current() is None,
                        ..self
                    }
                }
            },
            Err(e) => WalkView { last_err: Some(e), task: self.task.advanced(), ..self },
        }
    }
}

/// What an answer stands for.
pub open spec fn reply_view<T: DeepView>(r: Result<T, MapError>) -> Result<T::V, MapErrorView> {
    match r {
        Ok(v) => Ok(v.deep_view()),
        Err(e) => Err(e.deep_view()),
    }
}

impl<T: Duplicate> Walk<T> {
    /// The walk before any host was asked.
    pub fn new(task: ShardTask) -> (r: Walk<T>)
        ensures
            r.deep_view() == walk_start::<T::V>(task.deep_view()),
    {
        let r = Walk { task, attempts: 0, last_err: None, copies: Vec::new(), finished: false };
        proof {
            assert(r.copies.deep_view() =~= Seq::<(Seq<char>, T::V)>::empty());
        }
        r
    }

    /// What to do next. Where a host is to be asked, it counts as asked.
    pub fn step(&mut self, config: &RunConfig, elapsed: u64) -> (r: Step)
        ensures
            r.deep_view() == old(self).deep_view().next(*config, elapsed),
            final(self).deep_view() == (if r is Ask {
                old(self).deep_view().asked()
            } else {
                old(self).deep_view()
            }),
    {
        if let Some(deadline) = config.deadline {
            if elapsed >= deadline {
                return Step::Late;
            }
        }
        if self.finished {
            return Step::Finished;
        }
        let host: String = match self.task.host() {
            Some(h) => h.to_owned(),
            None => {
                return Step::Finished;
            },
        };
        if self.attempts >= at_least_one(config.max_attempts_per_shard) {
            return Step::Finished;
        }
        self.attempts = self.attempts + 1;
        Step::Ask(host)
    }

    /// Takes the answer of the host that was asked.
    pub fn record(&mut self, wanted: usize, reply: Result<T, MapError>)
        requires
            old(self).deep_view().task.current() is Some,
        ensures
            final(self).deep_view() == old(self).deep_view().told(wanted, reply_view(reply)),
    {
        match reply {
            Ok(value) => {
                let host: String = match self.task.host() {
                    Some(h) => h.to_owned(),
                    None => String::new(),
                };
                let ghost was = self.copies.deep_view();
                let ghost added = (host@, value.deep_view());
                self.copies.push((host, value));
                proof {
                    assert(self.copies.deep_view() =~= was.push(added));
                    assert(self.copies.deep_view().len() == self.copies@.len());
                }
                self.last_err = None;
                if self.copies.len() >= at_least_one(wanted) {
                    self.finished = true;
                } else {
                    let more: bool = self.task.advance();
                    self.finished = !more;
                }
            },
            Err(e) => {
                self.last_err = Some(e);
                let _more: bool = self.task.advance();
            },
        }
    }

    /// The error for a walk whose time is up.
    pub fn late(&self, deadline: u64, scanning: bool) -> (r: EngineError)
        ensures
            r.deep_view() == (EngineErrorView::Late {
                scanning,
                deadline,
                cid: self.deep_view().task.shard.cid,
            }),
    {
        EngineError::Late { scanning, deadline, cid: self.task.shard.cid.clone() }
    }

    /// The error for a walk on which no host answered.
    fn unserved(&self) -> (r: EngineError)
        ensures
            r.deep_view() == unserved_view(self.deep_view()),
    {
        EngineError::Unserved {
            cid: self.task.shard.cid.clone(),
            hosts: self.task.ranked_hosts.len(),
            last: self.last_err.duplicate(),
        }
    }
}

/// The error for a walk on which no host answered.
pub open spec fn unserved_view<V>(w: WalkView<V>) -> EngineErrorView {
    EngineErrorView::Unserved {
        cid: w.task.shard.cid,
        hosts: w.task.ranked_hosts.len(),
        last: w.last_err,
    }
}

/// What became of one shard of a query for aggregates.
#[derive(Debug, Clone, PartialEq)]
pub struct ShardOutcome {
    pub shard_cid: String,
    /// The first host whose answer is the one that is accepted.
    pub served_by: String,
    pub partial: Partial,
    pub attempts: usize,
    /// Whether a host failed on the way.
    pub redistributed: bool,
    /// Whether copies were compared.
    pub verified: bool,
}

/// What a [`ShardOutcome`] stands for.
pub struct OutcomeView {
    pub shard_cid: Seq<char>,
    pub served_by: Seq<char>,
    pub partial: PartialView,
    pub attempts: usize,
    pub redistributed: bool,
    pub verified: bool,
}

impl DeepView for ShardOutcome {
    type V = OutcomeView;

    open spec fn deep_view(&self) -> OutcomeView {
        OutcomeView {
            shard_cid: self.shard_cid@,
            served_by: self.served_by@,
            partial: self.partial.deep_view(),
            attempts: self.attempts,
            redistributed: self.redistributed,
            verified: self.verified,
        }
    }
}

/// What a result stands for.
pub open spec fn outcome_view(r: Result<ShardOutcome, EngineError>) -> Result<
    OutcomeView,
    EngineErrorView,
> {
    match r {
        Ok(o) => Ok(o.deep_view()),
        Err(e) => Err(e.deep_view()),
    }
}

/// What becomes of a shard at the end of its walk.
pub open spec fn concluded(w: WalkView<PartialView>, config: RunConfig) -> Result<
    OutcomeView,
    EngineErrorView,
> {
    if w.copies.len() == 0 {
        Err(unserved_view(w))
    } else {
        let outcome = OutcomeView {
            shard_cid: w.task.shard.cid,
            served_by: w.copies[0].0,
            partial: w.copies[0].1,
            attempts: w.attempts,
            redistributed: w.attempts > w.copies.len(),
            verified: config.redundancy > 1 && w.copies.len() > 1,
        };
        if config.redundancy > 1 {
            let results = quorum::results(w.copies);
            match quorum::accepted(results, config.quorum) {
                Ok(p) => Ok(
                    OutcomeView {
                        partial: p,
                        served_by: w.copies[quorum::first_agreeing(results, p)].0,
                        ..outcome
                    },
                ),
                Err(QuorumError::Disagreed { best, copies, need }) => Err(
                    EngineErrorView::Disagreed {
                        cid: w.task.shard.cid,
                        best: best as nat,
                        copies: copies as nat,
                        need: need as nat,
                    },
                ),
                Err(QuorumError::NoCopies) => Err(unserved_view(w)),
            }
        } else {
            Ok(outcome)
        }
    }
}

/// What becomes of a shard at the end of its walk. Where copies are wanted from several hosts, as many
/// must agree as the quorum asks for, and the shard counts as served by the first host whose copy is
/// that which is accepted.
pub fn conclude(walk: &Walk<Partial>, config: &RunConfig) -> (r: Result<ShardOutcome, EngineError>)
    ensures
        outcome_view(r) == concluded(walk.deep_view(), *config),
        config.redundancy > 1 && config.quorum != 0 && walk.copies@.len() < config.quorum ==> r is Err,
{
    let n: usize = walk.copies.len();
    if n == 0 {
        return Err(walk.unserved());
    }
    let mut chosen: usize = 0;
    if config.redundancy > 1 {
        proof {
            let all = quorum::results(walk.copies.deep_view());
            quorum::lemma_support_bound(all, quorum::winner(all));
        }
        match select_copy(&walk.copies, config.quorum) {
            Ok(i) => {
                chosen = i;
            },
            Err(QuorumError::Disagreed { best, copies, need }) => {
                return Err(
                    EngineError::Disagreed {
                        cid: walk.task.shard.cid.clone(),
                        best,
                        copies,
                        need,
                    },
                );
            },
            Err(QuorumError::NoCopies) => {
                return Err(walk.unserved());
            },
        }
    }
    assert(walk.deep_view().copies[chosen as int].0 == walk.copies@[chosen as int].0@);
    assert(walk.deep_view().copies[chosen as int].1 == walk.copies@[chosen as int].1.deep_view());
    Ok(
        ShardOutcome {
            shard_cid: walk.task.shard.cid.clone(),
            served_by: walk.copies[chosen].0.clone(),
            partial: walk.copies[chosen].1.duplicate(),
            attempts: walk.attempts,
            redistributed: walk.attempts > n,
            verified: config.redundancy > 1 && n > 1,
        },
    )
}

/// What became of one shard of a query for rows.
#[derive(Debug, Clone, PartialEq)]
pub struct ProjectOutcome {
    pub shard_cid: String,
    pub served_by: String,
    pub rows: Vec<Row>,
    pub attempts: usize,
}

/// What a [`ProjectOutcome`] stands for.
pub struct ProjectView {
    pub shard_cid: Seq<char>,
    pub served_by: Seq<char>,
    pub rows: Seq<RowView>,
    pub attempts: usize,
}

impl DeepView for ProjectOutcome {
    type V = ProjectView;

    open spec fn deep_view(&self) -> ProjectView {
        ProjectView {
            shard_cid: self.shard_cid@,
            served_by: self.served_by@,
            rows: self.rows.deep_view(),
            attempts: self.attempts,
        }
    }
}

/// What becomes of a shard of a query for rows at the end of its walk.
pub open spec fn concluded_rows(w: WalkView<Seq<RowView>>) -> Result<ProjectView, EngineErrorView> {
    if w.copies.len() == 0 {
        Err(unserved_view(w))
    } else {
        Ok(
            ProjectView {
                shard_cid: w.task.shard.cid,
                served_by: w.copies[0].0,
                rows: w.copies[0].1,
                attempts: w.attempts,
            },
        )
    }
}

/// What becomes of a shard of a query for rows at the end of its walk.
pub fn conclude_rows(walk: &Walk<Vec<Row>>) -> (r: Result<ProjectOutcome, EngineError>)
    ensures
        concluded_rows(walk.deep_view()) == (match r {
            Ok(o) => Ok::<ProjectView, EngineErrorView>(o.deep_view()),
            Err(e) => Err(e.deep_view()),
        }),
{
    if walk.copies.len() == 0 {
        return Err(walk.unserved());
    }
    assert(walk.deep_view().copies[0].0 == walk.copies@[0].0@);
    assert(walk.deep_view().copies[0].1 == walk.copies@[0].1.deep_view());
    Ok(
        ProjectOutcome {
            shard_cid: walk.task.shard.cid.clone(),
            served_by: walk.copies[0].0.clone(),
            rows: walk.copies[0].1.duplicate(),
            attempts: walk.attempts,
        },
    )
}

/// As many hosts were asked as the ranking was followed, unless the walk is over.
pub open spec fn in_step<V>(w: WalkView<V>) -> bool {
    w.finished || w.attempts == w.task.attempt
}

/// On every walk, however many copies are wanted and whatever the hosts say, the hosts are asked in
/// the order of the ranking, none twice, and no more of them than attempts are allowed.
pub proof fn lemma_asked_in_order<V>(
    w: WalkView<V>,
    config: RunConfig,
    elapsed: u64,
    wanted: usize,
    reply: Result<V, MapErrorView>,
)
    requires
        in_step(w),
        w.next(config, elapsed) is Ask,
        w.task.ranked_hosts.len() <= usize::MAX,
    ensures
        w.next(config, elapsed) == StepView::Ask(w.task.ranked_hosts[w.attempts as int]),
        w.asked().attempts <= one_at_least(config.max_attempts_per_shard),
        in_step(w.asked().told(wanted, reply)),
        w.asked().told(wanted, reply).attempts == w.attempts + 1,
        w.asked().told(wanted, reply).task.ranked_hosts == w.task.ranked_hosts,
{
}

/// The walk on which the first hosts were asked and failed with these errors.
pub open spec fn after_failures<V>(task: TaskView, errors: Seq<MapErrorView>) -> WalkView<V>
    decreases errors.len(),
{
    if errors.len() == 0 {
        walk_start(task)
    } else {
        after_failures::<V>(task, errors.drop_last()).asked().told(1, Err(errors.last()))
    }
}

/// After failures the next host of the ranking is asked, as long as there is one and as many
/// attempts are allowed; no host is asked twice.
pub proof fn lemma_failover<V>(
    task: TaskView,
    errors: Seq<MapErrorView>,
    config: RunConfig,
    elapsed: u64,
)
    requires
        task.attempt == 0,
        errors.len() <= task.ranked_hosts.len() <= usize::MAX,
        config.deadline matches Some(d) ==> elapsed < d,
    ensures
        ({
            let w = after_failures::<V>(task, errors);
            let k = errors.len();
            &&& w.attempts == k
            &&& w.copies.len() == 0
            &&& k > 0 ==> w.last_err == Some(errors.last())
            &&& w.next(config, elapsed) == (if k < task.ranked_hosts.len() && k < one_at_least(
                config.max_attempts_per_shard,
            ) {
                StepView::Ask(task.ranked_hosts[k as int])
            } else {
                StepView::Finished
            })
        }),
    decreases errors.len(),
{
    lemma_after_failures::<V>(task, errors);
}

proof fn lemma_after_failures<V>(task: TaskView, errors: Seq<MapErrorView>)
    requires
        task.attempt == 0,
        errors.len() <= task.ranked_hosts.len() <= usize::MAX,
    ensures
        ({
            let w = after_failures::<V>(task, errors);
            &&& w.attempts == errors.len()
            &&& w.task == (TaskView { attempt: errors.len() as usize, ..task })
            &&& w.copies.len() == 0
            &&& !w.finished
            &&& errors.len() > 0 ==> w.last_err == Some(errors.last())
            &&& errors.len() == 0 ==> w.last_err is None
        }),
    decreases errors.len(),
{
    if errors.len() > 0 {
        lemma_after_failures::<V>(task, errors.drop_last());
    }
}

/// A shard is served by the first host of its ranking that answers; the hosts before it count as
/// attempts, and the shard as redistributed where there are any.
pub proof fn lemma_served_after_failures(
    task: TaskView,
    errors: Seq<MapErrorView>,
    answer: PartialView,
    config: RunConfig,
)
    requires
        task.attempt == 0,
        errors.len() < task.ranked_hosts.len() <= usize::MAX,
        config.redundancy <= 1,
    ensures
        concluded(
            after_failures::<PartialView>(task, errors).asked().told(config.redundancy, Ok(answer)),
            config,
        ) == Ok::<OutcomeView, EngineErrorView>(
            OutcomeView {
                shard_cid: task.shard.cid,
                served_by: task.ranked_hosts[errors.len() as int],
                partial: answer,
                attempts: (errors.len() + 1) as usize,
                redistributed: errors.len() > 0,
                verified: false,
            },
        ),
{
    lemma_after_failures::<PartialView>(task, errors);
}

/// A shard of which every host that may be asked failed has no answer, not a wrong one.
pub proof fn lemma_unserved_is_an_error(
    task: TaskView,
    errors: Seq<MapErrorView>,
    config: RunConfig,
)
    requires
        task.attempt == 0,
        errors.len() <= task.ranked_hosts.len() <= usize::MAX,
    ensures
        concluded(after_failures::<PartialView>(task, errors), config) is Err,
{
    lemma_after_failures::<PartialView>(task, errors);
}

/// The shards that can have rows that meet the condition.
pub open spec fn live(shards: Seq<ShardView>, p: PredicateView) -> Seq<ShardView>
    decreases shards.len(),
{
    if shards.len() == 0 {
        Seq::empty()
    } else if plan::shard_matches(shards.last().stats, p) {
        live(shards.drop_last(), p).push(shards.last())
    } else {
        live(shards.drop_last(), p)
    }
}

/// The shards that can have rows that meet the condition.
fn live_shards(shards: &[Shard], predicate: &Predicate) -> (r: Vec<Shard>)
    ensures
        r.deep_view() == live(shards.deep_view(), predicate.deep_view()),
{
    let ghost all = shards.deep_view();
    let ghost p = predicate.deep_view();
    let mut out: Vec<Shard> = Vec::new();
    let mut i: usize = 0;
    proof {
        assert(all.take(0) =~= Seq::<ShardView>::empty());
        assert(out.deep_view() =~= Seq::<ShardView>::empty());
    }
    while i < shards.len()
        invariant
            i <= shards@.len(),
            all == shards.deep_view(),
            p == predicate.deep_view(),
            out.deep_view() == live(all.take(i as int), p),
        decreases shards@.len() - i,
    {
        proof {
            assert(all.take(i + 1).drop_last() =~= all.take(i as int));
            assert(all.take(i + 1).last() == shards@[i as int].deep_view());
        }
        if shard_can_match(shards[i].stats.as_ref(), predicate) {
            let ghost was = out.deep_view();
            out.push(shards[i].duplicate());
            proof {
                assert(out.deep_view() =~= was.push(all[i as int]));
            }
        }
        i = i + 1;
    }
    proof {
        assert(all.take(all.len() as int) =~= all);
    }
    out
}

/// The answer to a query for aggregates.
#[derive(Debug, Clone, PartialEq)]
pub struct RunReport {
    pub results: Vec<GroupResult>,
    /// For each shard the first host whose answer is the one that is accepted.
    pub served_by: Table<String, String>,
    /// How many times hosts were asked.
    pub total_attempts: usize,
    /// How many shards had a host fail.
    pub redistributed: usize,
    /// Of how many shards copies were compared.
    pub verified: usize,
}

/// What a [`RunReport`] stands for.
pub struct ReportView {
    pub results: Seq<GroupView>,
    pub served_by: Map<Seq<char>, Seq<char>>,
    pub total_attempts: usize,
    pub redistributed: nat,
    pub verified: nat,
}

impl DeepView for RunReport {
    type V = ReportView;

    open spec fn deep_view(&self) -> ReportView {
        ReportView {
            results: self.results.deep_view(),
            served_by: self.served_by.contents(),
            total_attempts: self.total_attempts,
            redistributed: self.redistributed as nat,
            verified: self.verified as nat,
        }
    }
}

/// What a query starts with: an answer at once, or work on shards.
pub enum RunStart {
    Finished(RunReport),
    Work(Vec<ShardTask>),
}

/// What a [`RunStart`] stands for.
pub enum StartView {
    Finished(ReportView),
    Work(Seq<TaskView>),
}

impl DeepView for RunStart {
    type V = StartView;

    open spec fn deep_view(&self) -> StartView {
        match self {
            RunStart::Finished(r) => StartView::Finished(r.deep_view()),
            RunStart::Work(t) => StartView::Work(t.deep_view()),
        }
    }
}

/// The answer where there are no rows.
pub open spec fn empty_report(q: QueryView) -> ReportView {
    ReportView {
        results: q.shaped(
            combine::finalized(PartialView { aggregates: q.aggregates, groups: Map::empty() }),
        ),
        served_by: Map::empty(),
        total_attempts: 0,
        redistributed: 0,
        verified: 0,
    }
}

/// What a query for aggregates starts with. A query that cannot be run, has no hosts or costs too
/// much is refused before any host is asked.
pub open spec fn run_started(
    q: QueryView,
    shards: Seq<ShardView>,
    hosts: Seq<Seq<char>>,
    config: RunConfig,
) -> Result<StartView, EngineErrorView> {
    if q.validity() is Err {
        Err(EngineErrorView::Invalid(q.validity()->Err_0))
    } else if shards.len() == 0 {
        Ok(StartView::Finished(empty_report(q)))
    } else if hosts.len() == 0 {
        Err(EngineErrorView::NoHosts)
    } else if scan_cost(config.limits, shards) is Err {
        Err(EngineErrorView::Cost(scan_cost(config.limits, shards)->Err_0))
    } else if live(shards, q.predicate).len() == 0 {
        Ok(StartView::Finished(empty_report(q)))
    } else {
        Ok(StartView::Work(plan::planned(live(shards, q.predicate), hosts)))
    }
}

/// The answer where there are no rows.
fn no_rows(query: &Query) -> (r: RunReport)
    ensures
        r.deep_view() == empty_report(query.deep_view()),
{
    let none: Partial = Partial::empty(query.aggregates.duplicate());
    RunReport {
        results: query.shape(none.finalize()),
        served_by: Table::new(),
        total_attempts: 0,
        redistributed: 0,
        verified: 0,
    }
}

/// Starts a query for aggregates.
pub fn start_run(query: &Query, shards: &[Shard], hosts: &[String], config: &RunConfig) -> (r: Result<
    RunStart,
    EngineError,
>)
    ensures
        run_started(query.deep_view(), shards.deep_view(), hosts.deep_view(), *config) == (match r {
            Ok(s) => Ok::<StartView, EngineErrorView>(s.deep_view()),
            Err(e) => Err(e.deep_view()),
        }),
{
    if let Err(e) = query.validate() {
        return Err(EngineError::Invalid(e));
    }
    if shards.len() == 0 {
        return Ok(RunStart::Finished(no_rows(query)));
    }
    if hosts.len() == 0 {
        return Err(EngineError::NoHosts);
    }
    if let Err(e) = config.limits.check_scan(shards) {
        return Err(EngineError::Cost(e));
    }
    let wanted: Vec<Shard> = live_shards(shards, &query.predicate);
    assert(wanted.deep_view().len() == wanted@.len());
    if wanted.len() == 0 {
        return Ok(RunStart::Finished(no_rows(query)));
    }
    Ok(RunStart::Work(plan(wanted.as_slice(), hosts)))
}

/// `a + b`, or the greatest number where that is greater.
pub open spec fn sum_capped(a: usize, b: usize) -> usize {
    if a + b > usize::MAX {
        usize::MAX
    } else {
        (a + b) as usize
    }
}

/// What the outcomes of shards come to.
pub open spec fn tallied(outcomes: Seq<OutcomeView>) -> ReportView
    decreases outcomes.len(),
{
    if outcomes.len() == 0 {
        ReportView {
            results: Seq::empty(),
            served_by: Map::empty(),
            total_attempts: 0,
            redistributed: 0,
            verified: 0,
        }
    } else {
        let before = tallied(outcomes.drop_last());
        let o = outcomes.last();
        ReportView {
            results: Seq::empty(),
            served_by: before.served_by.insert(o.shard_cid, o.served_by),
            total_attempts: sum_capped(before.total_attempts, o.attempts),
            redistributed: before.redistributed + (if o.redistributed {
                1nat
            } else {
                0nat
            }),
            verified: before.verified + (if o.verified {
                1nat
            } else {
                0nat
            }),
        }
    }
}

/// The partial results of outcomes.
pub open spec fn partials(outcomes: Seq<OutcomeView>) -> Seq<PartialView> {
    Seq::new(outcomes.len(), |i: int| outcomes[i].partial)
}

/// The answer to a query for aggregates: the partial results of the shards reduced, finalised,
/// ordered and limited, unless there are more groups than allowed or the time is up.
pub open spec fn run_finished(
    q: QueryView,
    config: RunConfig,
    outcomes: Seq<OutcomeView>,
    elapsed: u64,
) -> Result<ReportView, EngineErrorView> {
    let groups = combine::finalized(
        PartialView {
            aggregates: q.aggregates,
            groups: combine::reduced(partials(outcomes)),
        },
    );
    let limit = config.limits.max_result_groups;
    if time_up(config, elapsed) {
        Err(EngineErrorView::Overdue { deadline: config.deadline->0 })
    } else if limit != 0 && groups.len() > limit {
        Err(
            EngineErrorView::Cost(
                CostErrorView {
                    what: "result groups"@,
                    actual: groups.len() as u64,
                    limit: limit as u64,
                },
            ),
        )
    } else {
        Ok(ReportView { results: q.shaped(groups), ..tallied(outcomes) })
    }
}

proof fn lemma_tally_bound(outcomes: Seq<OutcomeView>)
    ensures
        tallied(outcomes).redistributed <= outcomes.len(),
        tallied(outcomes).verified <= outcomes.len(),
    decreases outcomes.len(),
{
    if outcomes.len() > 0 {
        lemma_tally_bound(outcomes.drop_last());
    }
}

/// Finishes a query for aggregates, `elapsed` milliseconds into it; `outcomes` are those of its
/// shards.
pub fn finish_run(
    query: &Query,
    config: &RunConfig,
    outcomes: &Vec<ShardOutcome>,
    elapsed: u64,
) -> (r: Result<RunReport, EngineError>)
    ensures
        run_finished(query.deep_view(), *config, outcomes.deep_view(), elapsed) == (match r {
            Ok(report) => Ok::<ReportView, EngineErrorView>(report.deep_view()),
            Err(e) => Err(e.deep_view()),
        }),
{
    if let Some(deadline) = config.deadline {
        if elapsed >= deadline {
            return Err(EngineError::Overdue { deadline });
        }
    }
    let ghost all = outcomes.deep_view();
    let mut parts: Vec<Partial> = Vec::new();
    let mut served_by: Table<String, String> = Table::new();
    let mut total_attempts: usize = 0;
    let mut redistributed: usize = 0;
    let mut verified: usize = 0;
    let mut i: usize = 0;
    proof {
        assert(all.take(0) =~= Seq::<OutcomeView>::empty());
        assert(parts.deep_view() =~= partials(all.take(0)));
    }
    while i < outcomes.len()
        invariant
            i <= outcomes@.len(),
            all == outcomes.deep_view(),
            parts.deep_view() == partials(all.take(i as int)),
            served_by.contents() == tallied(all.take(i as int)).served_by,
            total_attempts == tallied(all.take(i as int)).total_attempts,
            redistributed == tallied(all.take(i as int)).redistributed,
            verified == tallied(all.take(i as int)).verified,
        decreases outcomes@.len() - i,
    {
        let o: &ShardOutcome = &outcomes[i];
        let ghost was = parts.deep_view();
        proof {
            assert(all.take(i + 1).drop_last() =~= all.take(i as int));
            assert(all.take(i + 1).last() == o.deep_view());
            lemma_tally_bound(all.take(i as int));
        }
        total_attempts = total_attempts.saturating_add(o.attempts);
        if o.redistributed {
            redistributed = redistributed + 1;
        }
        if o.verified {
            verified = verified + 1;
        }
        served_by.insert(o.shard_cid.clone(), o.served_by.clone());
        parts.push(o.partial.duplicate());
        proof {
            assert(parts.deep_view() =~= was.push(o.partial.deep_view()));
            assert(parts.deep_view() =~= partials(all.take(i + 1)));
        }
        i = i + 1;
    }
    proof {
        assert(all.take(all.len() as int) =~= all);
    }
    let merged: Partial = reduce(query.aggregates.duplicate(), parts);
    let rows: Vec<GroupResult> = merged.finalize();
    assert(rows.deep_view().len() == rows@.len());
    let limit: usize = config.limits.max_result_groups;
    if limit != 0 && rows.len() > limit {
        return Err(
            EngineError::Cost(
                CostError {
                    what: "result groups".to_owned(),
                    actual: rows.len() as u64,
                    limit: limit as u64,
                },
            ),
        );
    }
    Ok(
        RunReport {
            results: query.shape(rows),
            served_by,
            total_attempts,
            redistributed,
            verified,
        },
    )
}

/// The rows of the shards whose ranges do not rule them out.
pub open spec fn live_rows(
    rows: Seq<Seq<RowView>>,
    stats: Seq<Option<dataset::StatsView>>,
    p: PredicateView,
) -> Seq<Seq<RowView>>
    decreases rows.len(),
{
    if rows.len() == 0 {
        Seq::empty()
    } else {
        let before = live_rows(rows.drop_last(), stats.drop_last(), p);
        if plan::shard_matches(stats.last(), p) {
            before.push(rows.last())
        } else {
            before
        }
    }
}

proof fn lemma_no_row_meets(q: QueryView, rows: Seq<RowView>)
    requires
        forall|i: int| 0 <= i < rows.len() ==> !query::meets(q.predicate, #[trigger] rows[i]),
    ensures
        q.mapped(rows) == Map::<Seq<Seq<char>>, Seq<combine::Accum>>::empty(),
    decreases rows.len(),
{
    if rows.len() > 0 {
        let rest = rows.drop_last();
        assert forall|i: int| 0 <= i < rest.len() implies !query::meets(
            q.predicate,
            #[trigger] rest[i],
        ) by {
            assert(rest[i] == rows[i]);
        }
        lemma_no_row_meets(q, rest);
        assert(!query::meets(q.predicate, rows[rows.len() - 1]));
    }
}

/// Leaving out the shards that their ranges rule out does not change the answer: where every other
/// shard is mapped as it stands, the reduced result is that of all rows at once.
pub proof fn lemma_pruned_run_is_complete(
    q: QueryView,
    rows: Seq<Seq<RowView>>,
    stats: Seq<Option<dataset::StatsView>>,
)
    requires
        stats.len() == rows.len(),
        forall|i: int|
            0 <= i < rows.len() ==> (#[trigger] stats[i] matches Some(s) ==> dataset::describes(
                s,
                rows[i],
            )),
        algebra::exact_query(q, algebra::all_rows(rows)),
    ensures
        combine::reduced(algebra::map_all(q, live_rows(rows, stats, q.predicate))) == q.mapped(
            algebra::all_rows(rows),
        ),
    decreases rows.len(),
{
    if rows.len() == 0 {
        assert(algebra::map_all(q, live_rows(rows, stats, q.predicate)) =~= Seq::<
            PartialView,
        >::empty());
    } else {
        let rest = rows.drop_last();
        let last = rows.last();
        let some = stats.drop_last();
        assert forall|i: int| 0 <= i < rest.len() implies (#[trigger] some[i] matches Some(s)
            ==> dataset::describes(s, rest[i])) by {
            assert(some[i] == stats[i] && rest[i] == rows[i]);
        }
        assert forall|i: int| 0 <= i < q.aggregates.len() implies algebra::exact(
            #[trigger] q.aggregates[i],
            algebra::all_rows(rest),
        ) by {
            algebra::lemma_exact_parts(q.aggregates[i], algebra::all_rows(rest), last);
        }
        lemma_pruned_run_is_complete(q, rest, some);
        algebra::lemma_map_concat(q, algebra::all_rows(rest), last);
        let before = live_rows(rest, some, q.predicate);
        if plan::shard_matches(stats.last(), q.predicate) {
            let parts = algebra::map_all(q, before.push(last));
            assert(parts.drop_last() =~= algebra::map_all(q, before));
        } else {
            assert(stats[stats.len() - 1] is Some);
            assert forall|i: int| 0 <= i < last.len() implies !query::meets(
                q.predicate,
                #[trigger] last[i],
            ) by {
                if query::meets(q.predicate, last[i]) {
                    plan::lemma_pruning_is_sound(last, stats.last()->0, q.predicate, i);
                }
            }
            lemma_no_row_meets(q, last);
            algebra::lemma_empty_is_identity(q.mapped(algebra::all_rows(rest)));
        }
    }
}

/// The groups of a query over rows.
pub open spec fn answer_groups(q: QueryView, rows: Seq<RowView>) -> Seq<GroupView> {
    combine::finalized(PartialView { aggregates: q.aggregates, groups: q.mapped(rows) })
}

proof fn lemma_pruned_run_stands(
    q: QueryView,
    bounds: Seq<Option<(nat, nat)>>,
    rows: Seq<Seq<RowView>>,
    stats: Seq<Option<dataset::StatsView>>,
)
    requires
        stats.len() == rows.len(),
        forall|i: int|
            0 <= i < rows.len() ==> (#[trigger] stats[i] matches Some(s) ==> dataset::describes(
                s,
                rows[i],
            )),
        means::all_bounded(q, bounds, algebra::all_rows(rows)),
    ensures
        means::groups_stand(
            q,
            bounds,
            algebra::all_rows(rows),
            combine::reduced(algebra::map_all(q, live_rows(rows, stats, q.predicate))),
        ),
    decreases rows.len(),
{
    if rows.len() == 0 {
        assert(algebra::map_all(q, live_rows(rows, stats, q.predicate)) =~= Seq::<
            PartialView,
        >::empty());
        means::lemma_nothing_stands(q, bounds);
    } else {
        let rest = rows.drop_last();
        let last = rows.last();
        let some = stats.drop_last();
        assert forall|i: int| 0 <= i < rest.len() implies (#[trigger] some[i] matches Some(s)
            ==> dataset::describes(s, rest[i])) by {
            assert(some[i] == stats[i] && rest[i] == rows[i]);
        }
        means::lemma_all_bounded_parts(q, bounds, algebra::all_rows(rest), last);
        lemma_pruned_run_stands(q, bounds, rest, some);
        let before = live_rows(rest, some, q.predicate);
        let groups = combine::reduced(algebra::map_all(q, before));
        if plan::shard_matches(stats.last(), q.predicate) {
            let parts = algebra::map_all(q, before.push(last));
            assert(parts.drop_last() =~= algebra::map_all(q, before));
            means::lemma_mapped_stands(q, bounds, last);
            means::lemma_merge_stands(
                q,
                bounds,
                algebra::all_rows(rest),
                last,
                groups,
                q.mapped(last),
            );
        } else {
            assert(stats[stats.len() - 1] is Some);
            assert forall|i: int| 0 <= i < last.len() implies !query::meets(
                q.predicate,
                #[trigger] last[i],
            ) by {
                if query::meets(q.predicate, last[i]) {
                    plan::lemma_pruning_is_sound(last, stats.last()->0, q.predicate, i);
                }
            }
            means::lemma_stands_without(q, bounds, algebra::all_rows(rest), last, groups);
        }
    }
}

/// Where every shard that is not ruled out is answered for by a host that maps it as it stands, the
/// answer is that of all rows at once, however they are sharded; there is one unless the time is up
/// or there are more groups than allowed.
pub proof fn lemma_run_is_correct(
    q: QueryView,
    config: RunConfig,
    rows: Seq<Seq<RowView>>,
    stats: Seq<Option<dataset::StatsView>>,
    outcomes: Seq<OutcomeView>,
    elapsed: u64,
)
    requires
        stats.len() == rows.len(),
        forall|i: int|
            0 <= i < rows.len() ==> (#[trigger] stats[i] matches Some(s) ==> dataset::describes(
                s,
                rows[i],
            )),
        means::steady_query(q, algebra::all_rows(rows)),
        partials(outcomes) == algebra::map_all(q, live_rows(rows, stats, q.predicate)),
    ensures
        run_finished(q, config, outcomes, elapsed) matches Ok(report) ==> report.results
            == q.shaped(answer_groups(q, algebra::all_rows(rows))),
        run_finished(q, config, outcomes, elapsed) is Ok <==> !time_up(config, elapsed) && (
        config.limits.max_result_groups == 0 || answer_groups(q, algebra::all_rows(rows)).len()
            <= config.limits.max_result_groups),
{
    lemma_reduced_answer(q, rows, stats);
}

/// Shards that are not ruled out, reduced, have the answer of all rows at once.
proof fn lemma_reduced_answer(
    q: QueryView,
    rows: Seq<Seq<RowView>>,
    stats: Seq<Option<dataset::StatsView>>,
)
    requires
        stats.len() == rows.len(),
        forall|i: int|
            0 <= i < rows.len() ==> (#[trigger] stats[i] matches Some(s) ==> dataset::describes(
                s,
                rows[i],
            )),
        means::steady_query(q, algebra::all_rows(rows)),
    ensures
        combine::finalized(
            PartialView {
                aggregates: q.aggregates,
                groups: combine::reduced(
                    algebra::map_all(q, live_rows(rows, stats, q.predicate)),
                ),
            },
        ) == answer_groups(q, algebra::all_rows(rows)),
{
    let all = algebra::all_rows(rows);
    let bounds = means::bounds_of(q, all);
    means::lemma_bounds(q, all);
    lemma_pruned_run_stands(q, bounds, rows, stats);
    means::lemma_mapped_stands(q, bounds, all);
    means::lemma_same_answer(
        q,
        bounds,
        all,
        combine::reduced(algebra::map_all(q, live_rows(rows, stats, q.predicate))),
        q.mapped(all),
    );
}

/// What is known of the contents of shards.
pub open spec fn stats_of(shards: Seq<ShardView>) -> Seq<Option<dataset::StatsView>> {
    Seq::new(shards.len(), |i: int| shards[i].stats)
}

/// `rows[i]` are the rows of `shards[i]`, and the ranges that it has, if any, are theirs.
pub open spec fn described(shards: Seq<ShardView>, rows: Seq<Seq<RowView>>) -> bool {
    shards.len() == rows.len() && forall|i: int|
        0 <= i < shards.len() ==> ((#[trigger] shards[i]).stats matches Some(s)
            ==> dataset::describes(s, rows[i]))
}

proof fn lemma_live_shards(shards: Seq<ShardView>, rows: Seq<Seq<RowView>>, p: PredicateView)
    requires
        shards.len() == rows.len(),
    ensures
        live(shards, p).len() == live_rows(rows, stats_of(shards), p).len(),
    decreases shards.len(),
{
    if shards.len() > 0 {
        assert(stats_of(shards).drop_last() =~= stats_of(shards.drop_last()));
        lemma_live_shards(shards.drop_last(), rows.drop_last(), p);
    }
}

/// The partial result of a shard that is mapped as it stands.
pub open spec fn honest(q: QueryView, rows: Seq<RowView>) -> PartialView {
    PartialView { aggregates: q.aggregates, groups: q.mapped(rows) }
}

/// The outcomes of shards each of which is mapped as it stands, `parts[i]` being the rows of the
/// `i`th, by the first host that answers, after `errors[i]`.
pub open spec fn answered(
    q: QueryView,
    config: RunConfig,
    tasks: Seq<TaskView>,
    parts: Seq<Seq<RowView>>,
    errors: Seq<Seq<MapErrorView>>,
) -> Seq<OutcomeView> {
    Seq::new(
        tasks.len(),
        |i: int|
            concluded(
                after_failures::<PartialView>(tasks[i], errors[i]).asked().told(
                    config.redundancy,
                    Ok(honest(q, parts[i])),
                ),
                config,
            )->Ok_0,
    )
}

/// The walk on which the hosts of the ranking answered one after another.
pub open spec fn walked<V>(task: TaskView, wanted: usize, replies: Seq<Result<V, MapErrorView>>) -> WalkView<
    V,
>
    decreases replies.len(),
{
    if replies.len() == 0 {
        walk_start(task)
    } else {
        walked(task, wanted, replies.drop_last()).asked().told(wanted, replies.last())
    }
}

/// The copies that came back are as the wire carries them, and the honest one wins: where copies are
/// compared, more than half of them are the honest one and as many as the quorum asks for; otherwise
/// the one that came back is.
pub open spec fn honest_wins(w: WalkView<PartialView>, config: RunConfig, honest: PartialView) -> bool {
    let copies = quorum::results(w.copies);
    let agreeing = quorum::votes(copies, honest, copies.len());
    &&& copies.len() > 0
    &&& quorum::wire_form(honest) == honest
    &&& forall|i: int|
        0 <= i < copies.len() ==> quorum::wire_form(#[trigger] copies[i]) == copies[i]
    &&& if config.redundancy > 1 {
        2 * agreeing > copies.len() && agreeing >= quorum::needed(copies.len(), config.quorum)
    } else {
        quorum::agree(honest, copies[0])
    }
}

/// Where the honest copy of a shard wins, the shard comes out as that copy.
pub proof fn lemma_honest_wins(w: WalkView<PartialView>, config: RunConfig, honest: PartialView)
    requires
        honest_wins(w, config, honest),
    ensures
        concluded(w, config) matches Ok(o) && o.partial == honest,
{
    let copies = quorum::results(w.copies);
    if config.redundancy > 1 {
        quorum::lemma_majority_wins(copies, config.quorum, honest);
        quorum::lemma_winner_agrees_first(copies);
    }
}

/// The outcomes of shards whose hosts answered so.
pub open spec fn copied(
    config: RunConfig,
    tasks: Seq<TaskView>,
    replies: Seq<Seq<Result<PartialView, MapErrorView>>>,
) -> Seq<OutcomeView> {
    Seq::new(
        tasks.len(),
        |i: int| concluded(walked(tasks[i], config.redundancy, replies[i]), config)->Ok_0,
    )
}

/// A query for aggregates has the answer that all rows at once give where on each shard the honest copy
/// wins, whatever the other hosts say, however the rows are sharded and which hosts there are.
pub proof fn lemma_run_with_copies_answers(
    q: QueryView,
    config: RunConfig,
    shards: Seq<ShardView>,
    hosts: Seq<Seq<char>>,
    rows: Seq<Seq<RowView>>,
    all: Seq<RowView>,
    replies: Seq<Seq<Result<PartialView, MapErrorView>>>,
    elapsed: u64,
)
    requires
        q.validity() is Ok,
        hosts.len() > 0,
        scan_cost(config.limits, shards) is Ok,
        config.limits.max_result_groups == 0,
        !time_up(config, elapsed),
        described(shards, rows),
        algebra::all_rows(rows).to_multiset() == all.to_multiset(),
        means::steady_query(q, all),
        replies.len() == live(shards, q.predicate).len(),
        forall|i: int|
            0 <= i < replies.len() ==> honest_wins(
                walked(
                    plan::planned(live(shards, q.predicate), hosts)[i],
                    config.redundancy,
                    #[trigger] replies[i],
                ),
                config,
                honest(q, live_rows(rows, stats_of(shards), q.predicate)[i]),
            ),
    ensures
        match run_started(q, shards, hosts, config) {
            Ok(StartView::Finished(report)) => report.results == q.shaped(answer_groups(q, all)),
            Ok(StartView::Work(tasks)) => {
                &&& tasks.len() == replies.len()
                &&& run_finished(q, config, copied(config, tasks, replies), elapsed) matches Ok(report)
                    && report.results == q.shaped(answer_groups(q, all))
            },
            Err(_) => false,
        },
{
    let stats = stats_of(shards);
    let parts = live_rows(rows, stats, q.predicate);
    lemma_live_shards(shards, rows, q.predicate);
    assert forall|i: int| 0 <= i < rows.len() implies (#[trigger] stats[i] matches Some(s)
        ==> dataset::describes(s, rows[i])) by {
        assert(stats[i] == shards[i].stats);
    }
    means::lemma_order_of_rows(q, all, algebra::all_rows(rows));
    lemma_reduced_answer(q, rows, stats);
    if parts.len() == 0 {
        assert(algebra::map_all(q, parts) =~= Seq::<PartialView>::empty());
    } else {
        let tasks = plan::planned(live(shards, q.predicate), hosts);
        let outcomes = copied(config, tasks, replies);
        assert forall|i: int| 0 <= i < tasks.len() implies (#[trigger] outcomes[i]).partial
            == algebra::map_all(q, parts)[i] by {
            let w = walked(tasks[i], config.redundancy, replies[i]);
            assert(honest_wins(w, config, honest(q, parts[i])));
            lemma_honest_wins(w, config, honest(q, parts[i]));
        }
        assert(partials(outcomes) =~= algebra::map_all(q, parts));
        lemma_run_is_correct(q, config, rows, stats, outcomes, elapsed);
    }
}

/// A run answers with what all rows at once give: at once, or when every shard is mapped as it stands by
/// the first host that answers, which is asked after the errors of those before it.
pub open spec fn run_answers(
    q: QueryView,
    config: RunConfig,
    shards: Seq<ShardView>,
    hosts: Seq<Seq<char>>,
    rows: Seq<Seq<RowView>>,
    all: Seq<RowView>,
    errors: Seq<Seq<MapErrorView>>,
    elapsed: u64,
) -> bool {
    match run_started(q, shards, hosts, config) {
        Ok(StartView::Finished(report)) => report.results == q.shaped(answer_groups(q, all)),
        Ok(StartView::Work(tasks)) => {
            let parts = live_rows(rows, stats_of(shards), q.predicate);
            &&& tasks.len() == parts.len()
            &&& forall|i: int|
                0 <= i < tasks.len() ==> after_failures::<PartialView>(
                    #[trigger] tasks[i],
                    errors[i],
                ).next(config, elapsed) is Ask
            &&& run_finished(q, config, answered(q, config, tasks, parts, errors), elapsed) matches Ok(
                report,
            ) && report.results == q.shaped(answer_groups(q, all))
        },
        Err(_) => false,
    }
}

/// A query for aggregates has the answer that all rows at once give, however they are sharded, which
/// hosts there are, whichever of them fail as long as one that may be asked answers for each shard,
/// and however many shards are worked on at once.
pub proof fn lemma_run_answers(
    q: QueryView,
    config: RunConfig,
    shards: Seq<ShardView>,
    hosts: Seq<Seq<char>>,
    rows: Seq<Seq<RowView>>,
    all: Seq<RowView>,
    errors: Seq<Seq<MapErrorView>>,
    elapsed: u64,
)
    requires
        q.validity() is Ok,
        0 < hosts.len() <= usize::MAX,
        scan_cost(config.limits, shards) is Ok,
        config.limits.max_result_groups == 0,
        config.redundancy <= 1,
        !time_up(config, elapsed),
        described(shards, rows),
        algebra::all_rows(rows).to_multiset() == all.to_multiset(),
        means::steady_query(q, all),
        errors.len() == live(shards, q.predicate).len(),
        forall|i: int|
            0 <= i < errors.len() ==> (#[trigger] errors[i]).len() < hosts.len()
                && errors[i].len() < one_at_least(config.max_attempts_per_shard),
    ensures
        run_answers(q, config, shards, hosts, rows, all, errors, elapsed),
{
    let stats = stats_of(shards);
    let parts = live_rows(rows, stats, q.predicate);
    lemma_live_shards(shards, rows, q.predicate);
    assert forall|i: int| 0 <= i < rows.len() implies (#[trigger] stats[i] matches Some(s)
        ==> dataset::describes(s, rows[i])) by {
        assert(stats[i] == shards[i].stats);
    }
    means::lemma_order_of_rows(q, all, algebra::all_rows(rows));
    lemma_reduced_answer(q, rows, stats);
    if parts.len() == 0 {
        assert(algebra::map_all(q, parts) =~= Seq::<PartialView>::empty());
    } else {
        let tasks = plan::planned(live(shards, q.predicate), hosts);
        let outcomes = answered(q, config, tasks, parts, errors);
        assert forall|i: int| 0 <= i < tasks.len() implies (#[trigger] outcomes[i]).partial
            == algebra::map_all(q, parts)[i] && after_failures::<PartialView>(
            tasks[i],
            errors[i],
        ).next(config, elapsed) is Ask by {
            plan::lemma_ranking(live(shards, q.predicate)[i].cid, hosts);
            assert(errors[i].len() < hosts.len());
            lemma_served_after_failures(tasks[i], errors[i], honest(q, parts[i]), config);
            lemma_failover::<PartialView>(tasks[i], errors[i], config, elapsed);
        }
        assert forall|i: int| 0 <= i < tasks.len() implies after_failures::<PartialView>(
            #[trigger] tasks[i],
            errors[i],
        ).next(config, elapsed) is Ask by {
            assert(outcomes[i].partial == algebra::map_all(q, parts)[i]);
        }
        assert(partials(outcomes) =~= algebra::map_all(q, parts));
        lemma_run_is_correct(q, config, rows, stats, outcomes, elapsed);
    }
}

/// Over integers of up to 31 bits, with no other cell that stands for a number, a query for aggregates
/// has the answer that all rows at once give, for up to 2 to the power 36 rows.
pub proof fn lemma_run_over_integers_answers(
    q: QueryView,
    config: RunConfig,
    shards: Seq<ShardView>,
    hosts: Seq<Seq<char>>,
    rows: Seq<Seq<RowView>>,
    all: Seq<RowView>,
    errors: Seq<Seq<MapErrorView>>,
    elapsed: u64,
)
    requires
        q.validity() is Ok,
        0 < hosts.len() <= usize::MAX,
        scan_cost(config.limits, shards) is Ok,
        config.limits.max_result_groups == 0,
        config.redundancy <= 1,
        !time_up(config, elapsed),
        described(shards, rows),
        algebra::all_rows(rows).to_multiset() == all.to_multiset(),
        forall|i: int, c: Seq<char>|
            0 <= i < all.len() ==> means::small(
                #[trigger] query::cell_value(all[i], c),
                0x8000_0000,
            ),
        all.len() <= 0x10_0000_0000,
        errors.len() == live(shards, q.predicate).len(),
        forall|i: int|
            0 <= i < errors.len() ==> (#[trigger] errors[i]).len() < hosts.len()
                && errors[i].len() < one_at_least(config.max_attempts_per_shard),
    ensures
        run_answers(q, config, shards, hosts, rows, all, errors, elapsed),
{
    means::lemma_many_integers_are_steady(q, all);
    lemma_run_answers(q, config, shards, hosts, rows, all, errors, elapsed);
}

/// The answer to a query for rows.
#[derive(Debug, Clone, PartialEq)]
pub struct ProjectionReport {
    pub rows: Vec<Row>,
    /// For each shard the host that served it.
    pub served_by: Table<String, String>,
    /// How many times hosts were asked.
    pub total_attempts: usize,
    /// Whether rows that the query asks for were left out, or may have been: it was enough before every
    /// shard that can have some was read.
    pub truncated: bool,
}

/// What a [`ProjectionReport`] stands for.
pub struct RowsView {
    pub rows: Seq<RowView>,
    pub served_by: Map<Seq<char>, Seq<char>>,
    pub total_attempts: usize,
    pub truncated: bool,
}

impl DeepView for ProjectionReport {
    type V = RowsView;

    open spec fn deep_view(&self) -> RowsView {
        RowsView {
            rows: self.rows.deep_view(),
            served_by: self.served_by.contents(),
            total_attempts: self.total_attempts,
            truncated: self.truncated,
        }
    }
}

/// The answer without rows.
pub open spec fn no_rows_view() -> RowsView {
    RowsView { rows: Seq::empty(), served_by: Map::empty(), total_attempts: 0, truncated: false }
}

/// The work that a query for rows starts with, none where there are no shards. A query that cannot
/// be run, has no hosts or costs too much is refused before any host is asked.
pub open spec fn projection_started(
    q: QueryView,
    shards: Seq<ShardView>,
    hosts: Seq<Seq<char>>,
    config: RunConfig,
) -> Result<Seq<TaskView>, EngineErrorView> {
    if q.validity() is Err {
        Err(EngineErrorView::Invalid(q.validity()->Err_0))
    } else if q.projection is None {
        Err(EngineErrorView::NotProjection)
    } else if shards.len() == 0 {
        Ok(Seq::empty())
    } else if hosts.len() == 0 {
        Err(EngineErrorView::NoHosts)
    } else if scan_cost(config.limits, shards) is Err {
        Err(EngineErrorView::Cost(scan_cost(config.limits, shards)->Err_0))
    } else {
        Ok(plan::planned(live(shards, q.predicate), hosts))
    }
}

/// Starts a query for rows.
pub fn start_projection(query: &Query, shards: &[Shard], hosts: &[String], config: &RunConfig) -> (r:
    Result<Vec<ShardTask>, EngineError>)
    ensures
        projection_started(query.deep_view(), shards.deep_view(), hosts.deep_view(), *config) == (
        match r {
            Ok(tasks) => Ok::<Seq<TaskView>, EngineErrorView>(tasks.deep_view()),
            Err(e) => Err(e.deep_view()),
        }),
{
    if let Err(e) = query.validate() {
        return Err(EngineError::Invalid(e));
    }
    if !query.is_projection() {
        return Err(EngineError::NotProjection);
    }
    if shards.len() == 0 {
        let none: Vec<ShardTask> = Vec::new();
        proof {
            assert(none.deep_view() =~= Seq::<TaskView>::empty());
        }
        return Ok(none);
    }
    if hosts.len() == 0 {
        return Err(EngineError::NoHosts);
    }
    if let Err(e) = config.limits.check_scan(shards) {
        return Err(EngineError::Cost(e));
    }
    let wanted: Vec<Shard> = live_shards(shards, &query.predicate);
    Ok(plan(wanted.as_slice(), hosts))
}

/// Whether enough rows are enough: there is a limit, and no order in which later rows could come
/// first.
pub open spec fn stops_early(q: QueryView) -> bool {
    q.limit is Some && q.order_by.len() == 0
}

/// How many rows are kept while they are collected.
pub open spec fn collect_cap(q: QueryView, config: RunConfig) -> Option<usize> {
    if stops_early(q) {
        q.limit
    } else if config.limits.max_result_groups == 0 {
        None
    } else {
        Some(config.limits.max_result_groups)
    }
}

/// What is collected after the rows of one more shard; `more` says that there are shards whose rows
/// were not collected yet.
pub open spec fn collected(
    before: RowsView,
    q: QueryView,
    config: RunConfig,
    o: ProjectView,
    more: bool,
) -> RowsView {
    let rows = before.rows + o.rows;
    let cap = collect_cap(q, config);
    let full = cap is Some && rows.len() >= cap->0;
    RowsView {
        rows: if full {
            rows.take(cap->0 as int)
        } else {
            rows
        },
        served_by: before.served_by.insert(o.shard_cid, o.served_by),
        total_attempts: sum_capped(before.total_attempts, o.attempts),
        truncated: before.truncated || (full && rows.len() > cap->0) || (enough(before, q, o) && more),
    }
}

/// Whether the rows so far are enough to stop.
pub open spec fn enough(before: RowsView, q: QueryView, o: ProjectView) -> bool {
    stops_early(q) && before.rows.len() + o.rows.len() >= q.limit->0
}

/// Whether there are rows in shards whose rows were not collected yet.
pub open spec fn rows_remain(tasks: Seq<TaskView>, seen: Seq<bool>) -> bool {
    exists|i: int| 0 <= i < tasks.len() && !seen[i] && (#[trigger] tasks[i]).shard.rows > 0
}

/// Whether there are rows in shards whose rows were not collected yet; `seen` marks the others.
pub fn more_rows(tasks: &Vec<ShardTask>, seen: &Vec<bool>) -> (r: bool)
    requires
        seen@.len() == tasks@.len(),
    ensures
        r == rows_remain(tasks.deep_view(), seen@),
{
    let ghost all = tasks.deep_view();
    let mut i: usize = 0;
    while i < tasks.len()
        invariant
            i <= tasks@.len(),
            seen@.len() == tasks@.len(),
            all == tasks.deep_view(),
            forall|j: int| 0 <= j < i ==> seen@[j] || (#[trigger] all[j]).shard.rows == 0,
        decreases tasks@.len() - i,
    {
        assert(all[i as int] == tasks@[i as int].deep_view());
        if !seen[i] && tasks[i].shard.rows > 0 {
            return true;
        }
        i = i + 1;
    }
    false
}

/// The rows of outcomes, shard by shard.
pub open spec fn rows_of(outcomes: Seq<ProjectView>) -> Seq<Seq<RowView>> {
    Seq::new(outcomes.len(), |i: int| outcomes[i].rows)
}

/// What is collected from shards one after another until it is enough; `more[i]` says that there are
/// rows in shards after the `i`th.
pub open spec fn gathered(
    before: RowsView,
    q: QueryView,
    config: RunConfig,
    outcomes: Seq<ProjectView>,
    more: Seq<bool>,
) -> RowsView
    decreases outcomes.len(),
{
    if outcomes.len() == 0 {
        before
    } else {
        let now = collected(before, q, config, outcomes[0], more[0]);
        if enough(before, q, outcomes[0]) {
            now
        } else {
            gathered(now, q, config, outcomes.skip(1), more.skip(1))
        }
    }
}

/// Where rows that the query asks for are to come, rows are said to come.
pub open spec fn warned(answers: Seq<Seq<RowView>>, more: Seq<bool>) -> bool {
    more.len() == answers.len() && forall|i: int|
        0 <= i < more.len() && algebra::all_rows(answers.skip(i + 1)).len() > 0 ==> #[trigger] more[i]
}

/// Where rows are said to come, rows that the query asks for come.
pub open spec fn truthful(answers: Seq<Seq<RowView>>, more: Seq<bool>) -> bool {
    forall|i: int|
        0 <= i < more.len() && #[trigger] more[i] ==> algebra::all_rows(
            answers.skip(i + 1),
        ).len() > 0
}

/// A query asks for no more rows than there are, and without a condition for all: a shard that has rows
/// that it asks for has rows, and without a condition the other way round.
pub proof fn lemma_rows_remain(q: QueryView, rows: Seq<RowView>)
    ensures
        q.projected(rows).len() <= rows.len(),
        q.predicate is True ==> q.projected(rows).len() == rows.len(),
    decreases rows.len(),
{
    if rows.len() > 0 {
        lemma_rows_remain(q, rows.drop_last());
    }
}

/// What is collected are the first of the rows that come, as many as are kept, and whether any are
/// left out.
proof fn lemma_gathered(
    before: RowsView,
    q: QueryView,
    config: RunConfig,
    outcomes: Seq<ProjectView>,
    more: Seq<bool>,
)
    requires
        warned(rows_of(outcomes), more),
        collect_cap(q, config) matches Some(c) ==> before.rows.len() <= c,
        before.truncated ==> collect_cap(q, config) is Some && before.rows.len() == collect_cap(
            q,
            config,
        )->0,
    ensures
        ({
            let all = before.rows + algebra::all_rows(rows_of(outcomes));
            let r = gathered(before, q, config, outcomes, more);
            let cap = collect_cap(q, config);
            let left_out = cap is Some && all.len() > cap->0;
            &&& r.rows == order::limited(all, cap)
            &&& before.truncated || left_out ==> r.truncated
            &&& r.truncated ==> before.truncated || left_out || (stops_early(q) && !truthful(
                rows_of(outcomes),
                more,
            ))
        }),
    decreases outcomes.len(),
{
    let answers = rows_of(outcomes);
    let cap = collect_cap(q, config);
    let all = before.rows + algebra::all_rows(answers);
    if outcomes.len() == 0 {
        assert(all =~= before.rows);
    } else {
        let o = outcomes[0];
        let now = collected(before, q, config, o, more[0]);
        let rest = outcomes.skip(1);
        algebra::lemma_first_rows(answers);
        assert(rows_of(rest) =~= answers.skip(1));
        let taken = before.rows + o.rows;
        assert(all =~= taken + algebra::all_rows(rows_of(rest)));
        assert(answers.skip(0int + 1) =~= rows_of(rest));
        if enough(before, q, o) {
            assert(cap == q.limit);
            assert(taken.take(cap->0 as int) =~= all.take(cap->0 as int));
            if taken.len() == cap->0 {
                assert(taken.take(cap->0 as int) =~= taken);
                if algebra::all_rows(rows_of(rest)).len() == 0 {
                    assert(all =~= taken);
                    assert(more[0] ==> !truthful(answers, more));
                } else {
                    assert(more[0]);
                }
            }
        } else {
            let fewer = more.skip(1);
            assert forall|i: int|
                0 <= i < fewer.len() && algebra::all_rows(rows_of(rest).skip(i + 1)).len()
                    > 0 implies #[trigger] fewer[i] by {
                assert(rows_of(rest).skip(i + 1) =~= answers.skip(i + 1 + 1));
                assert(more[i + 1]);
            }
            if truthful(answers, more) {
                assert forall|i: int| 0 <= i < fewer.len() && #[trigger] fewer[i] implies algebra::all_rows(
                    rows_of(rest).skip(i + 1),
                ).len() > 0 by {
                    assert(more[i + 1]);
                    assert(rows_of(rest).skip(i + 1) =~= answers.skip(i + 1 + 1));
                }
            }
            lemma_gathered(now, q, config, rest, fewer);
            let then = now.rows + algebra::all_rows(rows_of(rest));
            if cap is Some && taken.len() >= cap->0 {
                let c = cap->0 as int;
                assert(now.rows == taken.take(c));
                if taken.len() == c {
                    assert(taken.take(c) =~= taken);
                }
                assert(then.take(c) =~= taken.take(c));
                assert(all.take(c) =~= taken.take(c));
                assert(order::limited(then, cap) =~= taken.take(c));
                assert(order::limited(all, cap) =~= taken.take(c));
            } else {
                assert(then == all);
            }
        }
    }
}

/// The rows that a query asks for, part by part.
pub open spec fn projected_each(q: QueryView, parts: Seq<Seq<RowView>>) -> Seq<Seq<RowView>> {
    Seq::new(parts.len(), |i: int| q.projected(parts[i]))
}

/// The rows that a query asks for are those that it asks for of the shards that are not ruled out.
pub proof fn lemma_projection_is_complete(
    q: QueryView,
    rows: Seq<Seq<RowView>>,
    stats: Seq<Option<dataset::StatsView>>,
)
    requires
        stats.len() == rows.len(),
        forall|i: int|
            0 <= i < rows.len() ==> (#[trigger] stats[i] matches Some(s) ==> dataset::describes(
                s,
                rows[i],
            )),
    ensures
        algebra::all_rows(projected_each(q, live_rows(rows, stats, q.predicate))) == q.projected(
            algebra::all_rows(rows),
        ),
    decreases rows.len(),
{
    let live = live_rows(rows, stats, q.predicate);
    if rows.len() > 0 {
        let rest = rows.drop_last();
        let last = rows.last();
        let some = stats.drop_last();
        assert forall|i: int| 0 <= i < rest.len() implies (#[trigger] some[i] matches Some(s)
            ==> dataset::describes(s, rest[i])) by {
            assert(some[i] == stats[i] && rest[i] == rows[i]);
        }
        lemma_projection_is_complete(q, rest, some);
        algebra::lemma_projected_concat(q, algebra::all_rows(rest), last);
        let before = live_rows(rest, some, q.predicate);
        if plan::shard_matches(stats.last(), q.predicate) {
            assert(projected_each(q, live).drop_last() =~= projected_each(q, before));
        } else {
            assert(stats[stats.len() - 1] is Some);
            assert forall|i: int| 0 <= i < last.len() implies !query::meets(
                q.predicate,
                #[trigger] last[i],
            ) by {
                if query::meets(q.predicate, last[i]) {
                    plan::lemma_pruning_is_sound(last, stats.last()->0, q.predicate, i);
                }
            }
            lemma_no_row_projected(q, last);
            assert(q.projected(algebra::all_rows(rest)) + q.projected(last) =~= q.projected(
                algebra::all_rows(rest),
            ));
        }
    }
}

proof fn lemma_no_row_projected(q: QueryView, rows: Seq<RowView>)
    requires
        forall|i: int| 0 <= i < rows.len() ==> !query::meets(q.predicate, #[trigger] rows[i]),
    ensures
        q.projected(rows).len() == 0,
    decreases rows.len(),
{
    if rows.len() > 0 {
        let rest = rows.drop_last();
        assert forall|i: int| 0 <= i < rest.len() implies !query::meets(
            q.predicate,
            #[trigger] rest[i],
        ) by {
            assert(rest[i] == rows[i]);
        }
        lemma_no_row_projected(q, rest);
        assert(!query::meets(q.predicate, rows[rows.len() - 1]));
    }
}

/// The answer to a query for rows: those collected, ordered and then limited, unless the time is up.
pub open spec fn projection_finished(
    q: QueryView,
    config: RunConfig,
    c: RowsView,
    elapsed: u64,
) -> Result<RowsView, EngineErrorView> {
    let rows = order::ordered_rows(c.rows, q.order_by);
    if time_up(config, elapsed) {
        Err(EngineErrorView::Overdue { deadline: config.deadline->0 })
    } else {
        Ok(
            RowsView {
                rows: order::limited(rows, q.limit),
                truncated: c.truncated || (q.limit is Some && rows.len() > q.limit->0),
                ..c
            },
        )
    }
}

impl ProjectionReport {
    /// The answer without rows.
    pub fn new() -> (r: ProjectionReport)
        ensures
            r.deep_view() == no_rows_view(),
    {
        let r = ProjectionReport {
            rows: Vec::new(),
            served_by: Table::new(),
            total_attempts: 0,
            truncated: false,
        };
        proof {
            assert(r.rows.deep_view() =~= Seq::<RowView>::empty());
        }
        r
    }

    /// Takes the rows of one more shard; whether they are enough to stop. `more` says whether there are
    /// rows in shards whose rows were not taken yet, as [`more_rows`] finds.
    pub fn collect(
        &mut self,
        query: &Query,
        config: &RunConfig,
        outcome: ProjectOutcome,
        more: bool,
    ) -> (r: bool)
        ensures
            final(self).deep_view() == collected(
                old(self).deep_view(),
                query.deep_view(),
                *config,
                outcome.deep_view(),
                more,
            ),
            r == enough(old(self).deep_view(), query.deep_view(), outcome.deep_view()),
    {
        let ghost before = self.rows.deep_view();
        let ghost added = outcome.rows.deep_view();
        let ProjectOutcome { shard_cid, served_by, rows, attempts } = outcome;
        let mut added_rows: Vec<Row> = rows;
        self.total_attempts = self.total_attempts.saturating_add(attempts);
        self.served_by.insert(shard_cid, served_by);
        self.rows.append(&mut added_rows);
        proof {
            assert(self.rows.deep_view() =~= before + added);
        }
        let early: bool = query.limit.is_some() && query.order_by.len() == 0;
        let cap: Option<usize> = if early {
            query.limit
        } else if config.limits.max_result_groups == 0 {
            None
        } else {
            Some(config.limits.max_result_groups)
        };
        assert(cap == collect_cap(query.deep_view(), *config));
        let n: usize = self.rows.len();
        if let Some(c) = cap {
            if n >= c {
                self.truncated = self.truncated || n > c || (early && more);
                self.rows.truncate(c);
                proof {
                    assert(self.rows.deep_view() =~= (before + added).take(c as int));
                }
                return early;
            }
        }
        false
    }

    /// Finishes a query for rows, `elapsed` milliseconds into it.
    pub fn finish(&mut self, query: &Query, config: &RunConfig, elapsed: u64) -> (r: Result<
        (),
        EngineError,
    >)
        ensures
            projection_finished(query.deep_view(), *config, old(self).deep_view(), elapsed) == (match r {
                Ok(_) => Ok::<RowsView, EngineErrorView>(final(self).deep_view()),
                Err(e) => Err(e.deep_view()),
            }),
            r is Err ==> *final(self) == *old(self),
    {
        if let Some(deadline) = config.deadline {
            if elapsed >= deadline {
                return Err(EngineError::Overdue { deadline });
            }
        }
        order_raw_rows(&mut self.rows, query.order_by.as_slice());
        let ghost sorted = self.rows.deep_view();
        let n: usize = self.rows.len();
        if let Some(limit) = query.limit {
            if n > limit {
                self.truncated = true;
                self.rows.truncate(limit);
                proof {
                    assert(self.rows.deep_view() =~= sorted.take(limit as int));
                }
            }
        }
        Ok(())
    }
}

/// The fewer of `n` and the limit.
pub open spec fn at_most(n: nat, limit: Option<usize>) -> nat {
    match limit {
        Some(l) => if l < n {
            l as nat
        } else {
            n
        },
        None => n,
    }
}

proof fn lemma_limited<T>(s: Seq<T>, limit: Option<usize>)
    ensures
        order::limited(s, limit).to_multiset().subset_of(s.to_multiset()),
        order::limited(s, limit).len() == at_most(s.len(), limit),
{
    if limit is Some && limit->0 < s.len() {
        let n = limit->0 as int;
        assert(s =~= s.take(n) + s.skip(n));
        vstd::seq_lib::lemma_multiset_commutative(s.take(n), s.skip(n));
    }
}

/// A query for rows is answered with rows that it asks for, in the order that it asks for, however
/// they are sharded and in whatever order the shards are done. Where any are left out the answer says
/// so, and it says so only then, unless it was enough while rows of other shards were still said to
/// come that are none that the query asks for. Where the memory for rows suffices, as it does for a limit without an order, the rows are all
/// of them, or the first of all of them sorted, as many as the limit lets.
pub proof fn lemma_projection_answers(
    q: QueryView,
    config: RunConfig,
    shards: Seq<ShardView>,
    hosts: Seq<Seq<char>>,
    rows: Seq<Seq<RowView>>,
    outcomes: Seq<ProjectView>,
    more: Seq<bool>,
    elapsed: u64,
)
    requires
        q.validity() is Ok,
        q.projection is Some,
        hosts.len() > 0,
        scan_cost(config.limits, shards) is Ok,
        !time_up(config, elapsed),
        described(shards, rows),
        rows_of(outcomes).to_multiset() == projected_each(
            q,
            live_rows(rows, stats_of(shards), q.predicate),
        ).to_multiset(),
        warned(rows_of(outcomes), more),
    ensures
        projection_started(q, shards, hosts, config) matches Ok(tasks) && tasks.len()
            == outcomes.len(),
        ({
            let m = q.projected(algebra::all_rows(rows));
            let suffices = stops_early(q) || config.limits.max_result_groups == 0 || m.len()
                <= config.limits.max_result_groups;
            &&& projection_finished(
                q,
                config,
                gathered(no_rows_view(), q, config, outcomes, more),
                elapsed,
            ) matches Ok(r)
            &&& r.rows.to_multiset().subset_of(m.to_multiset())
            &&& order::sorted_rows(r.rows, q.order_by)
            &&& r.rows.len() < m.len() ==> r.truncated
            &&& r.truncated && (truthful(rows_of(outcomes), more) || !stops_early(q)) ==> r.rows.len()
                < m.len()
            &&& suffices ==> r.rows.len() == at_most(m.len(), q.limit)
            &&& suffices && q.limit is None ==> r.rows.to_multiset() == m.to_multiset()
            &&& suffices ==> exists|s: Seq<RowView>|
                {
                    &&& s.to_multiset() == m.to_multiset()
                    &&& order::sorted_rows(s, q.order_by)
                    &&& r.rows == #[trigger] order::limited(s, q.limit)
                }
        }),
{
    let stats = stats_of(shards);
    let parts = live_rows(rows, stats, q.predicate);
    let m = q.projected(algebra::all_rows(rows));
    lemma_live_shards(shards, rows, q.predicate);
    assert forall|i: int| 0 <= i < rows.len() implies (#[trigger] stats[i] matches Some(s)
        ==> dataset::describes(s, rows[i])) by {
        assert(stats[i] == shards[i].stats);
    }
    lemma_projection_is_complete(q, rows, stats);
    let answers = rows_of(outcomes);
    let all = algebra::all_rows(answers);
    algebra::lemma_rows_in_any_order(answers, projected_each(q, parts));
    answers.to_multiset_ensures();
    projected_each(q, parts).to_multiset_ensures();
    lemma_gathered(no_rows_view(), q, config, outcomes, more);
    assert(no_rows_view().rows + all =~= all);
    let cap = collect_cap(q, config);
    let c = gathered(no_rows_view(), q, config, outcomes, more);
    lemma_limited(all, cap);
    order::lemma_rows_sorted(c.rows, q.order_by);
    let sorted = order::ordered_rows(c.rows, q.order_by);
    lemma_limited(sorted, q.limit);
    let r = projection_finished(q, config, c, elapsed)->Ok_0;
    assert(r.rows == order::limited(sorted, q.limit));
    if stops_early(q) {
        assert(q.order_by =~= Seq::empty());
        order::lemma_no_order(Seq::empty(), Seq::empty(), c.rows);
        assert(r.rows == order::limited(all, q.limit));
        assert(order::sorted_rows(all, q.order_by));
    } else if cap is None || m.len() <= cap->0 {
        assert(c.rows == all);
        assert(r.rows == order::limited(sorted, q.limit));
    }
}

/// Which shards are being worked on: `next` of them were begun, `in_flight` of these are not done.
#[derive(Debug, Clone, Copy, PartialEq, Eq, Structural)]
pub struct Window {
    pub width: usize,
    pub total: usize,
    pub next: usize,
    pub in_flight: usize,
}

impl Window {
    /// No more shards than the width are worked on at once, and no more than were begun.
    pub open spec fn within(self) -> bool {
        self.in_flight <= self.next <= self.total && self.in_flight <= self.width && self.width > 0
    }

    /// No shard is being worked on.
    pub fn new(config: &RunConfig, total: usize) -> (r: Window)
        ensures
            r == (Window {
                width: one_at_least(config.max_in_flight),
                total,
                next: 0,
                in_flight: 0,
            }),
            r.within(),
    {
        Window { width: at_least_one(config.max_in_flight), total, next: 0, in_flight: 0 }
    }

    /// Begins the next shard, if there is one and room for it.
    pub fn begin(&mut self) -> (r: Option<usize>)
        requires
            old(self).within(),
        ensures
            final(self).within(),
            r is Some <==> old(self).in_flight < old(self).width && old(self).next < old(self).total,
            r matches Some(i) ==> i == old(self).next && *final(self) == (Window {
                next: (old(self).next + 1) as usize,
                in_flight: (old(self).in_flight + 1) as usize,
                ..*old(self)
            }),
            r is None ==> *final(self) == *old(self),
    {
        if self.in_flight < self.width && self.next < self.total {
            let i: usize = self.next;
            self.next = i + 1;
            self.in_flight = self.in_flight + 1;
            Some(i)
        } else {
            None
        }
    }

    /// One shard is done.
    pub fn done(&mut self)
        requires
            old(self).within(),
            old(self).in_flight > 0,
        ensures
            final(self).within(),
            *final(self) == (Window {
                in_flight: (old(self).in_flight - 1) as usize,
                ..*old(self)
            }),
    {
        self.in_flight = self.in_flight - 1;
    }
}

} // verus!
