use ce_query::combine::GroupResult;
use ce_query::dataset::{decode_shard, Row};
use ce_query::float::Float;
use ce_query::json::{Json, Num};
use ce_query::order::{apply_limit, cell_cmp, order_raw_rows, order_rows, row_cell};
use ce_query::query::{Agg, OrderKey, Query};
use ce_query::table::Table;
use std::cmp::Ordering;

fn whole(i: i128) -> Json {
    Json::Number(Num::Int(i))
}

fn fraction(f: f64) -> Json {
    Json::Number(Num::Float(Float { bits: f.to_bits() }))
}

fn string(s: &str) -> Json {
    Json::String(s.to_string())
}

/// A result row with one group key and named values.
fn gr(key: &str, vals: &[(&str, Json)]) -> GroupResult {
    let mut values = Table::new();
    for (k, v) in vals {
        values.insert(k.to_string(), v.clone());
    }
    GroupResult { key: vec![key.to_string()], values }
}

fn keys(rows: &[GroupResult]) -> Vec<&str> {
    rows.iter().map(|r| r.key[0].as_str()).collect()
}

#[test]
fn order_by_aggregate_desc() {
    let mut rows = vec![
        gr("a", &[("count", whole(3))]),
        gr("b", &[("count", whole(10))]),
        gr("c", &[("count", whole(1))]),
    ];
    order_rows(&mut rows, &["g".into()], &[OrderKey::desc("count")]);
    assert_eq!(keys(&rows), vec!["b", "a", "c"]);
}

#[test]
fn order_by_aggregate_asc() {
    let mut rows = vec![
        gr("a", &[("sum_v", fraction(3.0))]),
        gr("b", &[("sum_v", fraction(10.0))]),
        gr("c", &[("sum_v", fraction(1.0))]),
    ];
    order_rows(&mut rows, &["g".into()], &[OrderKey::asc("sum_v")]);
    assert_eq!(keys(&rows), vec!["c", "a", "b"]);
}

#[test]
fn order_by_group_key_column() {
    let mut rows =
        vec![gr("z", &[("count", whole(1))]), gr("a", &[("count", whole(1))]), gr("m", &[("count", whole(1))])];
    order_rows(&mut rows, &["region".into()], &[OrderKey::asc("region")]);
    assert_eq!(keys(&rows), vec!["a", "m", "z"]);
}

#[test]
fn multi_key_tiebreak() {
    let mut rows = vec![
        gr("a", &[("count", whole(5)), ("sum_v", fraction(30.0))]),
        gr("b", &[("count", whole(5)), ("sum_v", fraction(10.0))]),
        gr("c", &[("count", whole(2)), ("sum_v", fraction(99.0))]),
    ];
    order_rows(&mut rows, &["g".into()], &[OrderKey::desc("count"), OrderKey::asc("sum_v")]);
    assert_eq!(keys(&rows), vec!["b", "a", "c"]);
}

#[test]
fn limit_truncates_after_order() {
    let mut rows = vec![
        gr("a", &[("count", whole(3))]),
        gr("b", &[("count", whole(10))]),
        gr("c", &[("count", whole(1))]),
    ];
    order_rows(&mut rows, &["g".into()], &[OrderKey::desc("count")]);
    apply_limit(&mut rows, Some(2));
    assert_eq!(keys(&rows), vec!["b", "a"]);
}

#[test]
fn limit_none_and_zero() {
    let mut rows = vec![gr("a", &[("count", whole(1))]), gr("b", &[("count", whole(2))])];
    let mut copy = rows.clone();
    apply_limit(&mut copy, None);
    assert_eq!(copy.len(), 2);
    apply_limit(&mut rows, Some(0));
    assert!(rows.is_empty());
}

#[test]
fn empty_order_by_is_stable_noop() {
    let rows = vec![gr("z", &[("count", whole(1))]), gr("a", &[("count", whole(2))])];
    let mut shaped = rows.clone();
    order_rows(&mut shaped, &["g".into()], &[]);
    assert_eq!(shaped, rows, "no ORDER BY keys must preserve input order");
}

#[test]
fn unknown_column_is_noop_not_panic() {
    let rows = vec![gr("z", &[("count", whole(1))]), gr("a", &[("count", whole(2))])];
    let mut shaped = rows.clone();
    order_rows(&mut shaped, &["g".into()], &[OrderKey::asc("nope")]);
    assert_eq!(shaped, rows);
}

#[test]
fn cell_cmp_is_total_across_types() {
    assert_eq!(cell_cmp(&Json::Null, &Json::Bool(true)), Ordering::Less);
    assert_eq!(cell_cmp(&Json::Bool(true), &whole(1)), Ordering::Less);
    assert_eq!(cell_cmp(&whole(1), &string("a")), Ordering::Less);
    assert_eq!(cell_cmp(&whole(2), &whole(1)), Ordering::Greater);
    assert_eq!(cell_cmp(&string("a"), &string("b")), Ordering::Less);
    assert_eq!(cell_cmp(&Json::Null, &Json::Null), Ordering::Equal);
    assert_eq!(cell_cmp(&string("a"), &Json::Array("[]".into())), Ordering::Less);
    assert_eq!(cell_cmp(&Json::Object("{}".into()), &Json::Array("[]".into())), Ordering::Greater);
    assert_eq!(cell_cmp(&Json::Array("[1]".into()), &Json::Array("[]".into())), Ordering::Equal);
}

#[test]
fn query_shape_orders_and_limits() {
    let q = Query::new("t").agg(Agg::Count).group("g").order(OrderKey::desc("count")).limit(1);
    let rows = vec![
        gr("a", &[("count", whole(3))]),
        gr("b", &[("count", whole(10))]),
        gr("c", &[("count", whole(1))]),
    ];
    let out = q.shape(rows);
    assert_eq!(out.len(), 1);
    assert_eq!(out[0].key[0], "b");
}

#[test]
fn query_shape_identity_without_clauses() {
    let q = Query::new("t").agg(Agg::Count).group("g");
    let rows = vec![gr("a", &[("count", whole(3))]), gr("b", &[("count", whole(10))])];
    assert_eq!(q.shape(rows.clone()), rows);
}

fn sample(n: i128) -> Vec<GroupResult> {
    (0..n).map(|i| gr(&format!("k{i:03}"), &[("count", whole((i * 37 + 11) % 23 - 7))])).collect()
}

#[test]
fn limit_is_prefix_of_full_order() {
    for desc in [true, false] {
        let key = if desc { OrderKey::desc("count") } else { OrderKey::asc("count") };
        let rows = sample(40);
        let mut full = rows.clone();
        order_rows(&mut full, &["g".into()], std::slice::from_ref(&key));
        for n in [0, 1, 7, 39, 40, 50] {
            let mut limited = rows.clone();
            order_rows(&mut limited, &["g".into()], std::slice::from_ref(&key));
            apply_limit(&mut limited, Some(n));
            let expected: Vec<GroupResult> = full.iter().take(n).cloned().collect();
            assert_eq!(limited, expected);
        }
    }
}

#[test]
fn order_is_sorted_permutation() {
    let rows = sample(40);
    let mut sorted = rows.clone();
    order_rows(&mut sorted, &["g".into()], &[OrderKey::asc("count")]);
    let mut reference: Vec<GroupResult> = rows.clone();
    reference.sort_by(|a, b| {
        let x = a.values.get(&"count".to_string()).unwrap();
        let y = b.values.get(&"count".to_string()).unwrap();
        cell_cmp(x, y)
    });
    assert_eq!(sorted, reference, "a stable sort by the key");
}

#[test]
fn raw_rows_order_by_their_columns() {
    let text = "{\"v\":2,\"n\":\"a\"}\n{\"n\":\"b\"}\n{\"v\":10,\"n\":\"c\"}\n{\"v\":\"x\",\"n\":\"d\"}\n{\"v\":2,\"n\":\"e\"}\n";
    let mut rows: Vec<Row> = decode_shard(text.as_bytes()).unwrap();
    order_raw_rows(&mut rows, &[OrderKey::desc("v")]);
    let names: Vec<String> =
        rows.iter().map(|r| r.get(&"n".to_string()).unwrap().key()).collect();
    assert_eq!(names, vec!["d", "c", "a", "e", "b"]);
}

#[test]
fn large_integers_order_by_value() {
    let mut rows = decode_shard(
        b"{\"v\":9007199254740993}\n{\"v\":9007199254740992}\n{\"v\":9007199254740994}\n",
    )
    .unwrap();
    order_raw_rows(&mut rows, &[OrderKey::asc("v")]);
    let got: Vec<String> =
        rows.iter().map(|r| r.get(&"v".to_string()).unwrap().text.clone()).collect();
    assert_eq!(got, vec!["9007199254740992", "9007199254740993", "9007199254740994"]);
}

#[test]
fn row_cell_reads_keys_before_values() {
    let r = gr("k", &[("g", whole(1)), ("count", whole(2))]);
    assert_eq!(row_cell(&r, &["g".into()], "g"), Some(string("k")));
    assert_eq!(row_cell(&r, &["g".into()], "count"), Some(whole(2)));
    assert_eq!(row_cell(&r, &["h".into(), "i".into()], "i"), None);
    assert_eq!(row_cell(&r, &[], "nope"), None);
}
