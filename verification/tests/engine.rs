use ce_query::combine::{Accum, GroupResult, Partial};
use ce_query::dataset::{compute_stats, decode_shard, shard_rows, Row, Shard};
use ce_query::engine::{
    CostError, CostLimits, conclude, conclude_rows, finish_run, more_rows, start_projection, start_run, EngineError, MapError,
    ProjectionReport, RunConfig, RunReport, RunStart, Step, Walk, Window,
};
use ce_query::float::Float;
use ce_query::json::{Json, Num};
use ce_query::plan::rank_hosts;
use ce_query::query::{Agg, CmpOp, OrderKey, Predicate, Query, QueryError};
use ce_query::quorum::{select_quorum, QuorumError};
use sha2::Digest;
use std::cell::{Cell, RefCell};
use std::collections::{HashMap, HashSet};

/// A host in memory: rows by content id, and hosts that fail or lie.
#[derive(Default)]
struct MemHost {
    store: HashMap<String, Vec<Row>>,
    dead: HashSet<String>,
    missing: HashSet<String>,
    flaky: RefCell<HashSet<String>>,
    liars: HashSet<String>,
    calls: RefCell<HashMap<(String, String), usize>>,
    /// Milliseconds that every call takes.
    delay: u64,
    clock: Cell<u64>,
}

impl MemHost {
    fn new(store: HashMap<String, Vec<Row>>) -> MemHost {
        MemHost { store, ..MemHost::default() }
    }

    fn rows(&self, host: &str, shard: &Shard) -> Result<Vec<Row>, MapError> {
        *self.calls.borrow_mut().entry((host.to_string(), shard.cid.clone())).or_insert(0) += 1;
        self.clock.set(self.clock.get() + self.delay);
        if self.dead.contains(host) {
            return Err(MapError::Timeout);
        }
        if self.missing.contains(&shard.cid) {
            return Err(MapError::MissingBlob(shard.cid.clone()));
        }
        if self.flaky.borrow_mut().remove(&shard.cid) {
            return Err(MapError::HostError("transient 503".into()));
        }
        self.store.get(&shard.cid).cloned().ok_or_else(|| MapError::MissingBlob(shard.cid.clone()))
    }

    fn map(&self, host: &str, shard: &Shard, query: &Query) -> Result<Partial, MapError> {
        let rows = self.rows(host, shard)?;
        let mut partial = query.map_shard(&rows);
        if self.liars.contains(host) {
            for i in 0..partial.groups.len() {
                let mut states = partial.groups.exchange(i, Vec::new());
                for acc in states.iter_mut() {
                    if let Accum::Count(n) = acc {
                        *n += 999;
                    }
                }
                partial.groups.exchange(i, states);
            }
        }
        Ok(partial)
    }

    fn call_count(&self, host: &str, cid: &str) -> usize {
        *self.calls.borrow().get(&(host.to_string(), cid.to_string())).unwrap_or(&0)
    }

    fn total_calls(&self) -> usize {
        self.calls.borrow().values().sum()
    }
}

/// Runs a query for aggregates, one shard after another within the window.
fn run(
    query: &Query,
    shards: &[Shard],
    hosts: &[String],
    host: &MemHost,
    config: &RunConfig,
) -> Result<RunReport, EngineError> {
    let tasks = match start_run(query, shards, hosts, config)? {
        RunStart::Finished(report) => return Ok(report),
        RunStart::Work(tasks) => tasks,
    };
    let mut window = Window::new(config, tasks.len());
    let mut outcomes = Vec::new();
    while let Some(i) = window.begin() {
        let mut walk: Walk<Partial> = Walk::new(tasks[i].clone());
        loop {
            match walk.step(config, host.clock.get()) {
                Step::Ask(id) => {
                    let reply = host.map(&id, &walk.task.shard, query);
                    walk.record(config.redundancy, reply);
                }
                Step::Late => return Err(walk.late(config.deadline.unwrap(), false)),
                Step::Finished => break,
            }
        }
        outcomes.push(conclude(&walk, config)?);
        window.done();
    }
    finish_run(query, config, &outcomes, host.clock.get())
}

/// Runs a query for rows, one shard after another within the window.
fn run_projection(
    query: &Query,
    shards: &[Shard],
    hosts: &[String],
    host: &MemHost,
    config: &RunConfig,
) -> Result<ProjectionReport, EngineError> {
    let tasks = start_projection(query, shards, hosts, config)?;
    let mut window = Window::new(config, tasks.len());
    let mut report = ProjectionReport::new();
    let mut seen = vec![false; tasks.len()];
    while let Some(i) = window.begin() {
        let mut walk: Walk<Vec<Row>> = Walk::new(tasks[i].clone());
        loop {
            match walk.step(config, host.clock.get()) {
                Step::Ask(id) => {
                    let reply = host.rows(&id, &walk.task.shard).map(|r| query.project_shard(&r));
                    walk.record(1, reply);
                }
                Step::Late => return Err(walk.late(config.deadline.unwrap(), true)),
                Step::Finished => break,
            }
        }
        let outcome = conclude_rows(&walk)?;
        window.done();
        seen[i] = true;
        if report.collect(query, config, outcome, more_rows(&tasks, &seen)) {
            break;
        }
    }
    report.finish(query, config, host.clock.get())?;
    Ok(report)
}

/// Shards of rows, and the rows by content id.
fn make_dataset(rows: &[Row], n: usize, stats: bool) -> (Vec<Shard>, HashMap<String, Vec<Row>>) {
    let mut shards = Vec::new();
    let mut store = HashMap::new();
    for (rs, bytes) in shard_rows(rows, n).unwrap() {
        let cid = hex::encode(sha2::Sha256::digest(&bytes));
        let mut shard = Shard::new(&cid, rs.len() as u64, bytes.len() as u64);
        if stats {
            shard.stats = Some(compute_stats(&rs));
        }
        store.insert(cid, rs);
        shards.push(shard);
    }
    (shards, store)
}

fn hosts(n: usize) -> Vec<String> {
    (0..n).map(|i| format!("host{i}")).collect()
}

fn whole(i: i128) -> Json {
    Json::Number(Num::Int(i))
}

fn value(g: &GroupResult, name: &str) -> Json {
    g.values.get(&name.to_string()).unwrap().clone()
}

fn row(v: i64) -> Row {
    decode_shard(format!("{{\"v\":{v}}}").as_bytes()).unwrap().remove(0)
}

fn rows(from: i64, to: i64) -> Vec<Row> {
    (from..=to).map(row).collect()
}

fn sample_query() -> Query {
    Query::new("t").agg(Agg::Count).agg(Agg::Sum("v".into()))
}

fn cmp(field: &str, op: CmpOp, value: Json) -> Predicate {
    Predicate::Cmp { field: field.to_string(), op, value }
}

#[test]
fn happy_path_matches_local() {
    let (shards, store) = make_dataset(&rows(1, 12), 4, false);
    let host = MemHost::new(store);
    let report = run(&sample_query(), &shards, &hosts(3), &host, &RunConfig::default()).unwrap();
    assert_eq!(report.results.len(), 1);
    assert_eq!(value(&report.results[0], "count"), whole(12));
    assert_eq!(value(&report.results[0], "sum_v"), whole(78));
    assert_eq!(report.redistributed, 0);
    assert_eq!(report.served_by.len(), shards.len());
    assert_eq!(report.total_attempts, 4);
}

#[test]
fn dropped_host_redistributes_and_still_correct() {
    let (shards, store) = make_dataset(&rows(1, 20), 5, false);
    let h = hosts(3);
    let primary = rank_hosts(&shards[0].cid, &h)[0].clone();
    let mut host = MemHost::new(store);
    host.dead.insert(primary.clone());
    let report = run(&sample_query(), &shards, &h, &host, &RunConfig::default()).unwrap();
    assert_eq!(value(&report.results[0], "count"), whole(20));
    assert_eq!(value(&report.results[0], "sum_v"), whole(210));
    assert!(report.redistributed >= 1, "expected a failover");
    for i in 0..report.served_by.len() {
        assert_ne!(report.served_by.value_at(i), &primary);
    }
}

#[test]
fn transient_failure_retries_then_succeeds() {
    let (shards, store) = make_dataset(&rows(1, 6), 2, false);
    let host = MemHost::new(store);
    host.flaky.borrow_mut().insert(shards[0].cid.clone());
    let report = run(&sample_query(), &shards, &hosts(3), &host, &RunConfig::default()).unwrap();
    assert_eq!(value(&report.results[0], "count"), whole(6));
    assert_eq!(report.redistributed, 1, "the flaky shard failed over once");
}

#[test]
fn missing_blob_on_all_hosts_is_hard_error() {
    let (shards, store) = make_dataset(&rows(1, 4), 2, false);
    let missing = shards[1].cid.clone();
    let mut host = MemHost::new(store);
    host.missing.insert(missing.clone());
    let err =
        run(&sample_query(), &shards, &hosts(3), &host, &RunConfig::default()).unwrap_err();
    assert!(err.message().contains("could not be served"), "{}", err.message());
    assert_eq!(
        err.message(),
        format!(
            "shard {missing} could not be served by any of 3 candidate host(s) (last error: missing blob: {missing})"
        )
    );
    for hh in &hosts(3) {
        assert_eq!(host.call_count(hh, &missing), 1);
    }
}

#[test]
fn no_hosts_errors() {
    let (shards, _) = make_dataset(&rows(1, 4), 2, false);
    let host = MemHost::default();
    let err = run(&sample_query(), &shards, &[], &host, &RunConfig::default()).unwrap_err();
    assert!(err.message().contains("no candidate hosts"), "{}", err.message());
}

#[test]
fn empty_dataset_yields_empty_result() {
    let host = MemHost::default();
    let report = run(&sample_query(), &[], &hosts(2), &host, &RunConfig::default()).unwrap();
    assert!(report.results.is_empty());
    assert_eq!(report.total_attempts, 0);
}

#[test]
fn attempt_cap_is_respected() {
    let (shards, store) = make_dataset(&rows(1, 2), 1, false);
    let h = hosts(5);
    let mut host = MemHost::new(store);
    host.dead.extend(h.iter().cloned());
    let cfg = RunConfig { max_attempts_per_shard: 2, ..RunConfig::default() };
    let err = run(&sample_query(), &shards, &h, &host, &cfg).unwrap_err();
    assert!(err.message().contains("could not be served"), "{}", err.message());
    let total: usize = h.iter().map(|hh| host.call_count(hh, &shards[0].cid)).sum();
    assert_eq!(total, 2, "attempt cap must bound retries");
}

#[test]
fn order_by_and_limit_applied_to_run_report() {
    let text: String = (1..=10)
        .map(|v| format!("{{\"v\":{v},\"p\":\"{}\"}}\n", if v % 2 == 0 { "even" } else { "odd" }))
        .collect();
    let (shards, store) = make_dataset(&decode_shard(text.as_bytes()).unwrap(), 4, false);
    let host = MemHost::new(store);
    let q = Query::new("t")
        .agg(Agg::Sum("v".into()))
        .group("p")
        .order(OrderKey::desc("sum_v"))
        .limit(1);
    let report = run(&q, &shards, &hosts(3), &host, &RunConfig::default()).unwrap();
    assert_eq!(report.results.len(), 1);
    assert_eq!(report.results[0].key[0], "even");
    assert_eq!(value(&report.results[0], "sum_v"), whole(30));
}

#[test]
fn invalid_query_rejected_before_dispatch() {
    let host = MemHost::default();
    let q = Query::new("t"); // no aggregates
    let err = run(&q, &[], &hosts(1), &host, &RunConfig::default()).unwrap_err();
    assert!(err.message().contains("no aggregates"), "{}", err.message());
    assert_eq!(err, EngineError::Invalid(QueryError::NoAggregates));
}

#[test]
fn bounded_in_flight_limits_outstanding_calls() {
    let (shards, store) = make_dataset(&rows(1, 12), 4, false);
    let host = MemHost::new(store);
    let cfg = RunConfig { max_in_flight: 1, ..RunConfig::default() };
    let report = run(&sample_query(), &shards, &hosts(3), &host, &cfg).unwrap();
    assert_eq!(value(&report.results[0], "count"), whole(12));
    let mut window = Window::new(&RunConfig { max_in_flight: 2, ..cfg }, 3);
    assert_eq!(window.begin(), Some(0));
    assert_eq!(window.begin(), Some(1));
    assert_eq!(window.begin(), None);
    window.done();
    assert_eq!(window.begin(), Some(2));
    window.done();
    assert_eq!(window.begin(), None);
    assert_eq!(Window::new(&RunConfig { max_in_flight: 0, ..cfg }, 3).width, 1);
}

#[test]
fn redundancy_detects_a_lying_host() {
    let (shards, store) = make_dataset(&rows(1, 8), 2, false);
    let h = hosts(3);
    let liar = rank_hosts(&shards[0].cid, &h)[0].clone();
    let mut host = MemHost::new(store);
    host.liars.insert(liar);
    let cfg = RunConfig { redundancy: 2, quorum: 0, ..RunConfig::default() };
    let err = run(&sample_query(), &shards, &h, &host, &cfg).unwrap_err();
    assert!(err.message().contains("disagreed"), "{}", err.message());
    assert_eq!(
        err,
        EngineError::Disagreed { cid: shards[0].cid.clone(), best: 1, copies: 2, need: 2 }
    );
}

#[test]
fn redundancy_agrees_when_all_honest() {
    let (shards, store) = make_dataset(&rows(1, 8), 2, false);
    let host = MemHost::new(store);
    let cfg = RunConfig { redundancy: 2, quorum: 0, ..RunConfig::default() };
    let report = run(&sample_query(), &shards, &hosts(4), &host, &cfg).unwrap();
    assert_eq!(value(&report.results[0], "count"), whole(8));
    assert!(report.verified >= 1, "shards mapped on 2 hosts should be verified");
    assert_eq!(report.redistributed, 0);
    assert_eq!(report.total_attempts, 4);
}

#[test]
fn quorum_majority_tolerates_one_liar() {
    let (shards, store) = make_dataset(&rows(1, 9), 1, false);
    let h = hosts(4);
    let ranked = rank_hosts(&shards[0].cid, &h);
    let mut host = MemHost::new(store);
    host.liars.insert(ranked[1].clone());
    let cfg = RunConfig { redundancy: 3, quorum: 2, ..RunConfig::default() };
    let report = run(&sample_query(), &shards, &h, &host, &cfg).unwrap();
    assert_eq!(value(&report.results[0], "count"), whole(9), "honest majority must win");
}

#[test]
fn redundancy_best_effort_with_small_pool() {
    let (shards, store) = make_dataset(&rows(1, 8), 2, false);
    let host = MemHost::new(store);
    let cfg = RunConfig { redundancy: 3, quorum: 0, ..RunConfig::default() };
    let report = run(&sample_query(), &shards, &hosts(2), &host, &cfg).unwrap();
    assert_eq!(value(&report.results[0], "count"), whole(8));
}

#[test]
fn the_first_of_equal_groups_of_copies_wins() {
    let q = sample_query();
    let a = ("h0".to_string(), q.map_shard(&rows(1, 2)));
    let b = ("h1".to_string(), q.map_shard(&rows(1, 3)));
    assert_eq!(select_quorum(&vec![b.clone(), a.clone()], 1), Ok(b.1.clone()));
    assert_eq!(
        select_quorum(&vec![a.clone(), b.clone(), b.clone(), a.clone()], 3),
        Err(QuorumError::Disagreed { best: 2, copies: 4, need: 3 })
    );
    assert_eq!(select_quorum(&vec![a.clone(), b.clone(), b.clone()], 9), Err(QuorumError::Disagreed { best: 2, copies: 3, need: 9 }));
    assert_eq!(select_quorum(&vec![], 0), Err(QuorumError::NoCopies));
}

#[test]
fn deadline_is_enforced() {
    let (shards, store) = make_dataset(&rows(1, 10), 5, false);
    let mut host = MemHost::new(store);
    host.delay = 80;
    let cfg = RunConfig { max_in_flight: 1, deadline: Some(10), ..RunConfig::default() };
    let err = run(&sample_query(), &shards, &hosts(3), &host, &cfg).unwrap_err();
    assert!(err.message().contains("deadline"), "{}", err.message());
    assert_eq!(
        err.message(),
        format!("query deadline (10ms) exceeded while mapping shard {}", shards[0].cid)
    );
    let q = Query::new("t").project(vec![]);
    host.clock.set(0);
    let err = run_projection(&q, &shards, &hosts(3), &host, &cfg).unwrap_err();
    assert_eq!(
        err.message(),
        format!("query deadline (10ms) exceeded while scanning shard {}", shards[0].cid)
    );
    let patient = RunConfig { deadline: Some(1000), ..cfg };
    host.clock.set(0);
    let report = run(&sample_query(), &shards, &hosts(3), &host, &patient).unwrap();
    assert_eq!(value(&report.results[0], "count"), whole(10));
    host.clock.set(0);
    assert_eq!(run_projection(&q, &shards, &hosts(3), &host, &patient).unwrap().rows.len(), 10);
    for (ms, words) in [(0, "0ns"), (1000, "1s"), (1500, "1.5s"), (61_007, "61.007s"), (2_120, "2.12s")] {
        let late = EngineError::Late { scanning: true, deadline: ms, cid: "c".into() };
        assert_eq!(
            late.message(),
            format!("query deadline ({words}) exceeded while scanning shard c")
        );
        assert_eq!(words, format!("{:?}", std::time::Duration::from_millis(ms)));
    }
}

#[test]
fn an_answer_at_the_deadline_is_too_late() {
    let (shards, store) = make_dataset(&rows(1, 3), 1, false);
    let mut host = MemHost::new(store);
    host.delay = 80;
    for (deadline, late) in [(10, true), (80, true), (81, false)] {
        host.clock.set(0);
        let cfg = RunConfig { deadline: Some(deadline), ..RunConfig::default() };
        let result = run(&sample_query(), &shards, &hosts(1), &host, &cfg);
        assert_eq!(result.is_err(), late, "{deadline}");
    }
    let cfg = RunConfig { deadline: Some(10), ..RunConfig::default() };
    assert!(finish_run(&sample_query(), &cfg, &vec![], 9).is_ok());
    let err = finish_run(&sample_query(), &cfg, &vec![], 10).unwrap_err();
    assert_eq!(err, EngineError::Overdue { deadline: 10 });
    assert_eq!(err.message(), "query deadline (10ms) exceeded");
    let q = Query::new("t").project(vec![]);
    let mut report = ProjectionReport::new();
    assert_eq!(report.finish(&q, &cfg, 80), Err(EngineError::Overdue { deadline: 10 }));
    assert_eq!(report.finish(&q, &cfg, 9), Ok(()));
}

#[test]
fn a_shard_is_served_by_the_first_host_that_agrees() {
    let (shards, store) = make_dataset(&rows(1, 9), 1, false);
    let h = hosts(3);
    let ranked = rank_hosts(&shards[0].cid, &h);
    let mut host = MemHost::new(store);
    host.liars.insert(ranked[0].clone());
    let cfg = RunConfig { redundancy: 3, quorum: 2, ..RunConfig::default() };
    let report = run(&sample_query(), &shards, &h, &host, &cfg).unwrap();
    assert_eq!(value(&report.results[0], "count"), whole(9));
    assert_eq!(report.served_by.get(&shards[0].cid), Some(&ranked[1]));
    let plain = run(&sample_query(), &shards, &h, &host, &RunConfig::default()).unwrap();
    assert_eq!(plain.served_by.get(&shards[0].cid), Some(&ranked[0]));
}

#[test]
fn an_honest_majority_on_every_shard_answers_rightly() {
    let all = rows(1, 30);
    let q = sample_query().agg(Agg::Avg("v".into()));
    let whole_answer = q.shape(q.map_shard(&all).finalize());
    let h = hosts(5);
    for n in 1..=6 {
        let (shards, store) = make_dataset(&all, n, n % 2 == 1);
        let mut host = MemHost::new(store);
        host.liars.insert("host3".into());
        host.dead.insert("host1".into());
        let cfg = RunConfig {
            redundancy: 3,
            quorum: 2,
            max_attempts_per_shard: 5,
            ..RunConfig::default()
        };
        let report = run(&q, &shards, &h, &host, &cfg).unwrap();
        assert_eq!(report.results, whole_answer);
        assert_eq!(report.verified, shards.len());
    }
}

#[test]
fn means_of_large_integers_do_not_depend_on_the_shards() {
    let values: Vec<i64> =
        (0..60).map(|i| 9_007_199_254_740_991 - i * 1_234_567 - (i % 7) * 3).collect();
    let all: Vec<Row> = values.iter().map(|v| row(*v)).collect();
    let q = Query::new("t").agg(Agg::Avg("v".into())).agg(Agg::Sum("v".into()));
    let whole_answer = q.map_shard(&all).finalize();
    let total: i128 = values.iter().map(|v| *v as i128).sum();
    assert_eq!(value(&whole_answer[0], "sum_v"), whole(total));
    assert_eq!(
        value(&whole_answer[0], "avg_v"),
        Json::Number(Num::Float(Float { bits: (total as f64 / 60.0).to_bits() }))
    );
    for n in 1..=7 {
        let (shards, store) = make_dataset(&all, n, false);
        let host = MemHost::new(store);
        let report = run(&q, &shards, &hosts(3), &host, &RunConfig::default()).unwrap();
        assert_eq!(report.results, whole_answer);
    }
}

#[test]
fn fewer_copies_than_the_quorum_are_an_error() {
    let (shards, store) = make_dataset(&rows(1, 9), 1, false);
    let h = hosts(3);
    let ranked = rank_hosts(&shards[0].cid, &h);
    let mut host = MemHost::new(store);
    host.dead.insert(ranked[1].clone());
    host.dead.insert(ranked[2].clone());
    let cfg = RunConfig { redundancy: 3, quorum: 2, ..RunConfig::default() };
    assert_eq!(
        run(&sample_query(), &shards, &h, &host, &cfg).unwrap_err(),
        EngineError::Disagreed { cid: shards[0].cid.clone(), best: 1, copies: 1, need: 2 }
    );
    let cfg = RunConfig { quorum: 1, ..cfg };
    assert!(run(&sample_query(), &shards, &h, &host, &cfg).is_ok());
}

#[test]
fn cost_limit_rejects_too_many_shards() {
    let (shards, store) = make_dataset(&rows(1, 20), 5, false);
    let host = MemHost::new(store);
    let cfg = RunConfig {
        limits: CostLimits { max_shards: 2, ..CostLimits::unlimited() },
        ..RunConfig::default()
    };
    let err = run(&sample_query(), &shards, &hosts(3), &host, &cfg).unwrap_err();
    assert!(err.message().contains("cost limit"), "{}", err.message());
    assert_eq!(host.total_calls(), 0);
}

#[test]
fn cost_limit_rejects_too_many_rows() {
    let (shards, store) = make_dataset(&rows(1, 20), 4, false);
    let host = MemHost::new(store);
    let cfg = RunConfig {
        limits: CostLimits { max_scan_rows: 5, ..CostLimits::unlimited() },
        ..RunConfig::default()
    };
    let err = run(&sample_query(), &shards, &hosts(3), &host, &cfg).unwrap_err();
    assert!(err.message().contains("rows scanned"), "{}", err.message());
    assert_eq!(
        err.message(),
        "query cost limit exceeded: rows scanned = 20 > limit 5"
    );
}

#[test]
fn cost_limits_count_bytes_and_do_not_run_over() {
    let shards = vec![Shard::new("a", u64::MAX, 7), Shard::new("b", 2, 8)];
    let limits = CostLimits { max_scan_bytes: 14, ..CostLimits::unlimited() };
    assert_eq!(
        limits.check_scan(&shards),
        Err(CostError { what: "bytes scanned".into(), actual: 15, limit: 14 })
    );
    let limits = CostLimits { max_scan_rows: u64::MAX - 1, ..CostLimits::unlimited() };
    assert_eq!(
        limits.check_scan(&shards),
        Err(CostError { what: "rows scanned".into(), actual: u64::MAX, limit: u64::MAX - 1 })
    );
    assert_eq!(CostLimits::unlimited().check_scan(&shards), Ok(()));
}

#[test]
fn pruning_skips_non_matching_shards() {
    let mut shards = Vec::new();
    let mut store = HashMap::new();
    for rs in [rows(1, 5), rows(100, 105)] {
        let (s, st) = make_dataset(&rs, 1, true);
        shards.extend(s);
        store.extend(st);
    }
    let low_cid = shards[0].cid.clone();
    let host = MemHost::new(store);
    let q = Query::new("t").agg(Agg::Count).filter(cmp("v", CmpOp::Gt, whole(50)));
    let report = run(&q, &shards, &hosts(3), &host, &RunConfig::default()).unwrap();
    assert_eq!(value(&report.results[0], "count"), whole(6), "100..=105 is 6 rows");
    let low_calls: usize = hosts(3).iter().map(|h| host.call_count(h, &low_cid)).sum();
    assert_eq!(low_calls, 0, "pruned shard must not be fetched");
}

#[test]
fn pruning_all_shards_yields_empty_result() {
    let (shards, store) = make_dataset(&rows(1, 20), 4, true);
    let host = MemHost::new(store);
    let q = Query::new("t").agg(Agg::Count).filter(cmp("v", CmpOp::Gt, whole(1000)));
    let report = run(&q, &shards, &hosts(3), &host, &RunConfig::default()).unwrap();
    assert!(report.results.is_empty());
    assert_eq!(host.total_calls(), 0, "all shards pruned -> no fetches");
}

#[test]
fn projection_returns_filtered_rows() {
    let (shards, store) = make_dataset(&rows(1, 20), 4, false);
    let host = MemHost::new(store);
    let q = Query::new("t").project(vec!["v".into()]).filter(cmp("v", CmpOp::Gt, whole(15)));
    let report = run_projection(&q, &shards, &hosts(3), &host, &RunConfig::default()).unwrap();
    assert_eq!(report.rows.len(), 5);
    for r in &report.rows {
        match &r.get(&"v".to_string()).unwrap().value {
            Json::Number(Num::Int(v)) => assert!(*v > 15),
            other => panic!("unexpected {other:?}"),
        }
    }
}

#[test]
fn projection_limit_truncates_and_flags() {
    let (shards, store) = make_dataset(&rows(1, 50), 5, false);
    let host = MemHost::new(store);
    let q = Query::new("t").project(vec![]).limit(7);
    let report = run_projection(&q, &shards, &hosts(3), &host, &RunConfig::default()).unwrap();
    assert_eq!(report.rows.len(), 7);
    assert!(report.truncated, "more than 7 rows existed, so the result is truncated");
    assert_eq!(host.total_calls(), 1, "enough rows after one shard");
}

#[test]
fn a_limit_met_exactly_says_whether_rows_are_left_out() {
    let cfg = RunConfig { max_in_flight: 1, ..RunConfig::default() };
    let (shards, store) = make_dataset(&rows(1, 2), 2, false);
    let host = MemHost::new(store);
    let q = Query::new("t").project(vec![]).limit(1);
    let report = run_projection(&q, &shards, &hosts(1), &host, &cfg).unwrap();
    assert_eq!(report.rows.len(), 1);
    assert!(report.truncated, "the row of the other shard is left out");
    assert_eq!(host.total_calls(), 1, "the other shard is known to have a row");

    let report = run_projection(&q.clone().limit(2), &shards, &hosts(1), &host, &cfg).unwrap();
    assert_eq!(report.rows.len(), 2);
    assert!(!report.truncated, "every row is returned");

    // Shards hold 1, 3 and 2, 4. Once the limit is met no other shard is read, so whether one has
    // more rows that meet the condition is not known.
    let (shards, store) = make_dataset(&rows(1, 4), 2, false);
    let mut host = MemHost::new(store);
    host.missing.insert(shards[1].cid.clone());
    for top in [2, 3] {
        host.calls.borrow_mut().clear();
        let q = Query::new("t").project(vec![]).filter(cmp("v", CmpOp::Lt, whole(top))).limit(1);
        let report = run_projection(&q, &shards, &hosts(1), &host, &cfg).unwrap();
        assert_eq!(report.rows.len(), 1);
        assert!(report.truncated);
        assert_eq!(host.total_calls(), 1, "enough after one shard");
    }

    // The range of the second shard rules it out.
    let (shards, store) = make_dataset(&rows(1, 4), 2, true);
    let host = MemHost::new(store);
    let q = Query::new("t").project(vec![]).filter(cmp("v", CmpOp::Lt, whole(2))).limit(1);
    let report = run_projection(&q, &shards, &hosts(1), &host, &cfg).unwrap();
    assert_eq!(report.rows.len(), 1);
    assert!(!report.truncated);
}

#[test]
fn projected_rows_do_not_depend_on_the_shards() {
    let all = rows(1, 30);
    for n in 1..=6 {
        let (shards, store) = make_dataset(&all, n, n % 2 == 0);
        let host = MemHost::new(store);
        let q = Query::new("t").project(vec![]).filter(cmp("v", CmpOp::Gt, whole(10)));
        let texts = |q: &Query| {
            let report = run_projection(q, &shards, &hosts(3), &host, &RunConfig::default()).unwrap();
            let mut got: Vec<i64> = report
                .rows
                .iter()
                .map(|r| r.get(&"v".to_string()).unwrap().text.parse().unwrap())
                .collect();
            if q.order_by.is_empty() {
                got.sort();
            }
            (got, report.truncated)
        };
        assert_eq!(texts(&q), ((11..=30).collect(), false));
        let (got, truncated) = texts(&q.clone().limit(7));
        assert!(got.len() == 7 && got.iter().all(|v| *v > 10) && truncated);
        assert_eq!(texts(&q.clone().limit(20)), ((11..=30).collect(), false));
        assert_eq!(
            texts(&q.clone().order(OrderKey::desc("v")).limit(4)),
            (vec![30, 29, 28, 27], true)
        );
        assert_eq!(texts(&q.clone().limit(0)), (vec![], true));
    }
}

#[test]
fn projection_order_by_then_limit() {
    let (shards, store) = make_dataset(&rows(1, 10), 4, false);
    let host = MemHost::new(store);
    let q = Query::new("t").project(vec!["v".into()]).order(OrderKey::desc("v")).limit(3);
    let report = run_projection(&q, &shards, &hosts(3), &host, &RunConfig::default()).unwrap();
    let got: Vec<String> =
        report.rows.iter().map(|r| r.get(&"v".to_string()).unwrap().text.clone()).collect();
    assert_eq!(got, vec!["10", "9", "8"], "top-3 by v desc");
}

#[test]
fn projection_errors() {
    let (shards, store) = make_dataset(&rows(1, 4), 2, false);
    let mut host = MemHost::new(store);
    let agg = sample_query();
    let err = run_projection(&agg, &shards, &hosts(1), &host, &RunConfig::default()).unwrap_err();
    assert_eq!(err, EngineError::NotProjection);
    let q = Query::new("t").project(vec![]);
    let err = run_projection(&q, &shards, &[], &host, &RunConfig::default()).unwrap_err();
    assert_eq!(err, EngineError::NoHosts);
    host.dead.insert("host0".into());
    let err = run_projection(&q, &shards, &hosts(1), &host, &RunConfig::default()).unwrap_err();
    assert_eq!(
        err,
        EngineError::Unserved {
            cid: shards[0].cid.clone(),
            hosts: 1,
            last: Some(MapError::Timeout)
        }
    );
    let report = run_projection(&q, &[], &[], &host, &RunConfig::default()).unwrap();
    assert!(report.rows.is_empty() && !report.truncated);
    let cap = RunConfig {
        limits: CostLimits { max_result_groups: 3, ..CostLimits::unlimited() },
        ..RunConfig::default()
    };
    let report = run_projection(&q, &shards, &hosts(2), &host, &cap).unwrap();
    assert_eq!(report.rows.len(), 3);
    assert!(report.truncated);
}

#[test]
fn cost_limit_rejects_too_many_result_groups() {
    let text: String = (0..10).map(|i| format!("{{\"v\":{i},\"g\":{i}}}\n")).collect();
    let (shards, store) = make_dataset(&decode_shard(text.as_bytes()).unwrap(), 2, false);
    let host = MemHost::new(store);
    let q = Query::new("t").agg(Agg::Count).group("g");
    let cfg = RunConfig {
        limits: CostLimits { max_result_groups: 2, ..CostLimits::unlimited() },
        ..RunConfig::default()
    };
    let err = run(&q, &shards, &hosts(3), &host, &cfg).unwrap_err();
    assert!(err.message().contains("result groups"), "{}", err.message());
}

#[test]
fn host_errors_in_words() {
    assert_eq!(MapError::Timeout.message(), "timeout");
    assert_eq!(MapError::HostError("x".into()).message(), "host error: x");
    assert_eq!(MapError::MissingBlob("x".into()).message(), "missing blob: x");
    assert_eq!(MapError::Corrupt("x".into()).message(), "corrupt result: x");
}
