use ce_query::combine::GroupResult;
use ce_query::dataset::Shard;
use ce_query::engine::RunConfig;
use ce_query::json::{Json, Num};
use ce_query::plan::plan;
use ce_query::report::{
    describe_shard, describe_task, group_object, no_hosts_message, rows_summary, run_config,
    run_summary, RunOptions,
};
use ce_query::table::Table;

#[test]
fn options_make_a_configuration() {
    let o = RunOptions {
        max_attempts: 4,
        concurrency: 16,
        redundancy: 1,
        quorum: 0,
        deadline_ms: 0,
        max_scan_bytes: 0,
        max_scan_rows: 0,
    };
    assert_eq!(run_config(&o), RunConfig::default());
    let c = run_config(&RunOptions { deadline_ms: 5, max_scan_rows: 7, ..o });
    assert_eq!(c.deadline, Some(5));
    assert_eq!(c.limits.max_scan_rows, 7);
    assert_eq!(c.limits.max_scan_bytes, 16 * 1024 * 1024 * 1024);
}

#[test]
fn a_group_is_an_object_of_its_key_and_values() {
    let mut values = Table::new();
    values.insert("count".to_string(), Json::Number(Num::Int(3)));
    values.insert("b".to_string(), Json::Null);
    let g = GroupResult { key: vec!["x".to_string()], values };
    let o = group_object(&vec!["a".to_string(), "b".to_string(), "c".to_string()], &g);
    assert_eq!(o.len(), 4);
    assert_eq!(o.get(&"a".to_string()), Some(&Json::String("x".into())));
    assert_eq!(o.get(&"b".to_string()), Some(&Json::Null));
    assert_eq!(o.get(&"c".to_string()), Some(&Json::String("".into())));
    assert_eq!(o.get(&"count".to_string()), Some(&Json::Number(Num::Int(3))));
}

#[test]
fn summaries() {
    assert_eq!(
        run_summary(8, 10, 2, 0),
        "[8 shard(s), 10 attempt(s), 2 redistributed, 0 verified]"
    );
    assert_eq!(rows_summary(1, 2, 3, false), "[1 shard(s), 2 attempt(s), 3 row(s)]");
    assert_eq!(rows_summary(1, 2, 3, true), "[1 shard(s), 2 attempt(s), 3 row(s), truncated]");
    assert_eq!(describe_shard(&Shard::new("c", 10, 200)), "c (10 rows, 200 bytes)");
    assert!(no_hosts_message(true).contains("for the ce-query service"));
    assert!(!no_hosts_message(false).contains("service"));
}

#[test]
fn tasks_in_words() {
    let hosts: Vec<String> = (0..3).map(|i| format!("h{i}")).collect();
    let t = plan(&[Shard::new("c", 0, 0)], &hosts).remove(0);
    let want = format!(
        "c -> {} (fallbacks: {}, {})",
        t.ranked_hosts[0], t.ranked_hosts[1], t.ranked_hosts[2]
    );
    assert_eq!(describe_task(&t), want);
    let none = plan(&[Shard::new("c", 0, 0)], &[]).remove(0);
    assert_eq!(describe_task(&none), "c -> <none> (fallbacks: )");
}
