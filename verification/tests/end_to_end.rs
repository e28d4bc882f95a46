use ce_query::combine::{Accum, GroupResult, Partial};
use ce_query::dataset::{
    compute_stats, decode_shard, encode_shard, shard_rows, Row, Shard,
};
use ce_query::engine::{
    conclude, conclude_rows, finish_run, more_rows, start_projection, start_run, EngineError, MapError,
    ProjectionReport, RunConfig, RunReport, RunStart, Step, Walk, Window,
};
use ce_query::json::{Json, Num};
use ce_query::query::Query;
use ce_query::sql;
use sha2::Digest;
use std::cell::{Cell, RefCell};
use std::collections::{HashMap, HashSet};

/// A host in memory: rows by content id, and hosts that fail or lie.
#[derive(Default)]
struct MemHost {
    store: HashMap<String, Vec<Row>>,
    dead: HashSet<String>,
    missing: HashSet<String>,
    flaky: RefCell<HashSet<String>>,
    liars: HashSet<String>,
    calls: RefCell<HashMap<(String, String), usize>>,
    /// Milliseconds that every call takes.
    delay: u64,
    clock: Cell<u64>,
}

impl MemHost {
    fn new(store: HashMap<String, Vec<Row>>) -> MemHost {
        MemHost { store, ..MemHost::default() }
    }

    fn rows(&self, host: &str, shard: &Shard) -> Result<Vec<Row>, MapError> {
        *self.calls.borrow_mut().entry((host.to_string(), shard.cid.clone())).or_insert(0) += 1;
        self.clock.set(self.clock.get() + self.delay);
        if self.dead.contains(host) {
            return Err(MapError::Timeout);
        }
        if self.missing.contains(&shard.cid) {
            return Err(MapError::MissingBlob(shard.cid.clone()));
        }
        if self.flaky.borrow_mut().remove(&shard.cid) {
            return Err(MapError::HostError("transient 503".into()));
        }
        self.store.get(&shard.cid).cloned().ok_or_else(|| MapError::MissingBlob(shard.cid.clone()))
    }

    fn map(&self, host: &str, shard: &Shard, query: &Query) -> Result<Partial, MapError> {
        let rows = self.rows(host, shard)?;
        let mut partial = query.map_shard(&rows);
        if self.liars.contains(host) {
            for i in 0..partial.groups.len() {
                let mut states = partial.groups.exchange(i, Vec::new());
                for acc in states.iter_mut() {
                    if let Accum::Count(n) = acc {
                        *n += 999;
                    }
                }
                partial.groups.exchange(i, states);
            }
        }
        Ok(partial)
    }
}

/// Runs a query for aggregates, one shard after another within the window.
fn run(
    query: &Query,
    shards: &[Shard],
    hosts: &[String],
    host: &MemHost,
    config: &RunConfig,
) -> Result<RunReport, EngineError> {
    let tasks = match start_run(query, shards, hosts, config)? {
        RunStart::Finished(report) => return Ok(report),
        RunStart::Work(tasks) => tasks,
    };
    let mut window = Window::new(config, tasks.len());
    let mut outcomes = Vec::new();
    while let Some(i) = window.begin() {
        let mut walk: Walk<Partial> = Walk::new(tasks[i].clone());
        loop {
            match walk.step(config, host.clock.get()) {
                Step::Ask(id) => {
                    let reply = host.map(&id, &walk.task.shard, query);
                    walk.record(config.redundancy, reply);
                }
                Step::Late => return Err(walk.late(config.deadline.unwrap(), false)),
                Step::Finished => break,
            }
        }
        outcomes.push(conclude(&walk, config)?);
        window.done();
    }
    finish_run(query, config, &outcomes, host.clock.get())
}

/// Runs a query for rows, one shard after another within the window.
fn run_projection(
    query: &Query,
    shards: &[Shard],
    hosts: &[String],
    host: &MemHost,
    config: &RunConfig,
) -> Result<ProjectionReport, EngineError> {
    let tasks = start_projection(query, shards, hosts, config)?;
    let mut window = Window::new(config, tasks.len());
    let mut report = ProjectionReport::new();
    let mut seen = vec![false; tasks.len()];
    while let Some(i) = window.begin() {
        let mut walk: Walk<Vec<Row>> = Walk::new(tasks[i].clone());
        loop {
            match walk.step(config, host.clock.get()) {
                Step::Ask(id) => {
                    let reply = host.rows(&id, &walk.task.shard).map(|r| query.project_shard(&r));
                    walk.record(1, reply);
                }
                Step::Late => return Err(walk.late(config.deadline.unwrap(), true)),
                Step::Finished => break,
            }
        }
        let outcome = conclude_rows(&walk)?;
        window.done();
        seen[i] = true;
        if report.collect(query, config, outcome, more_rows(&tasks, &seen)) {
            break;
        }
    }
    report.finish(query, config, host.clock.get())?;
    Ok(report)
}

/// Shards of rows, and the rows by content id.
fn make_dataset(rows: &[Row], n: usize, stats: bool) -> (Vec<Shard>, HashMap<String, Vec<Row>>) {
    let mut shards = Vec::new();
    let mut store = HashMap::new();
    for (rs, bytes) in shard_rows(rows, n).unwrap() {
        let cid = hex::encode(sha2::Sha256::digest(&bytes));
        let mut shard = Shard::new(&cid, rs.len() as u64, bytes.len() as u64);
        if stats {
            shard.stats = Some(compute_stats(&rs));
        }
        store.insert(cid, rs);
        shards.push(shard);
    }
    (shards, store)
}

fn hosts(n: usize) -> Vec<String> {
    (0..n).map(|i| format!("host{i}")).collect()
}

fn whole(i: i128) -> Json {
    Json::Number(Num::Int(i))
}

fn value(g: &GroupResult, name: &str) -> Json {
    g.values.get(&name.to_string()).unwrap().clone()
}

/// Six rows in two regions.
fn sales_rows() -> Vec<Row> {
    let text: String =
        [("EU", 100), ("US", 200), ("EU", 50), ("US", 75), ("EU", 25), ("US", 25)]
            .iter()
            .map(|(r, a)| format!("{{\"region\":\"{r}\",\"amount\":{a}}}\n"))
            .collect();
    decode_shard(text.as_bytes()).unwrap()
}

#[test]
fn sql_aggregate_group_by_end_to_end() {
    let (shards, store) = make_dataset(&sales_rows(), 3, true);
    let host = MemHost::new(store);
    let q = sql::parse(
        "SELECT SUM(amount), COUNT(*) FROM sales GROUP BY region ORDER BY sum_amount DESC",
    )
    .unwrap();
    let report = run(&q, &shards, &hosts(3), &host, &RunConfig::default()).unwrap();
    assert_eq!(report.results.len(), 2);
    assert_eq!(report.results[0].key[0], "US");
    assert_eq!(value(&report.results[0], "sum_amount"), whole(300));
    assert_eq!(value(&report.results[0], "count"), whole(3));
    assert_eq!(report.results[1].key[0], "EU");
    assert_eq!(value(&report.results[1], "sum_amount"), whole(175));
}

#[test]
fn sql_projection_with_where_and_limit_end_to_end() {
    let (shards, store) = make_dataset(&sales_rows(), 4, true);
    let host = MemHost::new(store);
    let q = sql::parse(
        "SELECT region, amount FROM sales WHERE amount >= 75 ORDER BY amount DESC LIMIT 2",
    )
    .unwrap();
    let report = run_projection(&q, &shards, &hosts(3), &host, &RunConfig::default()).unwrap();
    let amounts: Vec<Json> = report
        .rows
        .iter()
        .map(|r| r.get(&"amount".to_string()).unwrap().value.clone())
        .collect();
    assert_eq!(amounts, vec![whole(200), whole(100)]);
    assert!(report.rows[0].get(&"region".to_string()).is_some());
    assert!(report.rows[0].get(&"amount".to_string()).is_some());
    assert_eq!(report.rows[0].len(), 2);
    assert!(report.truncated, "3 matched, limit 2 -> truncated");
}

#[test]
fn sharding_count_does_not_change_the_answer() {
    let rows = sales_rows();
    let q = sql::parse("SELECT SUM(amount) FROM sales").unwrap();
    for n in 1..=6 {
        let (shards, store) = make_dataset(&rows, n, true);
        let host = MemHost::new(store);
        let report = run(&q, &shards, &hosts(3), &host, &RunConfig::default()).unwrap();
        assert_eq!(value(&report.results[0], "sum_amount"), whole(475));
    }
}

#[test]
fn encode_decode_shard_is_the_wire_contract() {
    let rows = sales_rows();
    let bytes = encode_shard(&rows).unwrap();
    let back = decode_shard(&bytes).unwrap();
    assert_eq!(back, rows);
}
