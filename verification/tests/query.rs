use ce_query::combine::{Accum, GroupResult, KahanSum};
use ce_query::dataset::{decode_shard, Row};
use ce_query::float::Float;
use ce_query::json::Json;
use ce_query::query::{
    as_f64, as_number, json_cmp, Agg, CmpOp, Num, OrderKey, Predicate, Query, QueryError,
};
use ce_query::table::Table;
use std::cmp::Ordering;

/// A row of columns with their JSON texts.
fn row(cells: &[(&str, &str)]) -> Row {
    let fields: Vec<String> = cells.iter().map(|(k, v)| format!("\"{k}\":{v}")).collect();
    let line = format!("{{{}}}", fields.join(","));
    decode_shard(line.as_bytes()).unwrap().remove(0)
}

fn whole(i: i128) -> Json {
    Json::Number(Num::Int(i))
}

fn fraction(f: f64) -> Json {
    Json::Number(Num::Float(Float { bits: f.to_bits() }))
}

fn string(s: &str) -> Json {
    Json::String(s.to_string())
}

fn value(g: &GroupResult, name: &str) -> Json {
    g.values.get(&name.to_string()).unwrap().clone()
}

fn cmp(field: &str, op: CmpOp, value: Json) -> Predicate {
    Predicate::Cmp { field: field.to_string(), op, value }
}

#[test]
fn as_number_classifies_int_vs_float() {
    assert_eq!(as_number(&whole(42)), Some(Num::Int(42)));
    assert_eq!(as_number(&whole(-7)), Some(Num::Int(-7)));
    assert_eq!(as_number(&string("100")), Some(Num::Int(100)));
    assert_eq!(as_number(&fraction(1.5)), Some(Num::Float(Float { bits: 1.5f64.to_bits() })));
    assert_eq!(as_number(&string("2.5")), Some(Num::Float(Float { bits: 2.5f64.to_bits() })));
    assert_eq!(as_number(&string("nope")), None);
    assert_eq!(as_number(&Json::Bool(true)), None);
    assert_eq!(as_number(&string("  12 ")), Some(Num::Int(12)));
    assert_eq!(
        as_number(&string("170141183460469231731687303715884105728")),
        Some(Num::Float(Float { bits: 170141183460469231731687303715884105728f64.to_bits() }))
    );
}

#[test]
fn integer_sum_is_exact() {
    let cases: Vec<Vec<i64>> = vec![
        vec![],
        vec![5],
        vec![-999_999_999_999, 999_999_999_998, 3],
        (0..50).map(|i| i * 19_999_999_999 - 400_000_000_000).collect(),
    ];
    for values in cases {
        let q = Query::new("t").agg(Agg::Sum("v".into()));
        let rows: Vec<Row> = values.iter().map(|v| row(&[("v", &v.to_string())])).collect();
        let out = q.map_shard(&rows).finalize();
        let expected: i128 = values.iter().map(|&v| v as i128).sum();
        if values.is_empty() {
            assert!(out.is_empty());
        } else {
            assert_eq!(value(&out[0], "sum_v"), whole(expected));
        }
    }
}

#[test]
fn cmp_ops_numeric() {
    assert!(CmpOp::Eq.eval(&whole(3), &whole(3)));
    assert!(CmpOp::Lt.eval(&whole(2), &whole(3)));
    assert!(CmpOp::Ge.eval(&whole(3), &whole(3)));
    assert!(!CmpOp::Gt.eval(&whole(3), &whole(3)));
    assert!(CmpOp::Le.eval(&whole(3), &fraction(3.0)));
    assert!(CmpOp::Ne.eval(&fraction(0.5), &whole(0)));
}

#[test]
fn cmp_cross_type_is_unordered() {
    assert!(CmpOp::Ne.eval(&whole(3), &string("3")));
    assert!(!CmpOp::Eq.eval(&whole(3), &string("3")));
    assert!(!CmpOp::Lt.eval(&whole(3), &string("3")));
}

#[test]
fn json_values_compare_within_their_type() {
    assert_eq!(json_cmp(&Json::Null, &Json::Null), Some(Ordering::Equal));
    assert_eq!(json_cmp(&Json::Bool(false), &Json::Bool(true)), Some(Ordering::Less));
    assert_eq!(json_cmp(&Json::Bool(true), &Json::Bool(false)), Some(Ordering::Greater));
    assert_eq!(json_cmp(&string("a"), &string("ab")), Some(Ordering::Less));
    assert_eq!(json_cmp(&string("\u{10000}"), &string("\u{ffff}")), Some(Ordering::Greater));
    assert_eq!(json_cmp(&fraction(-1.5), &whole(-2)), Some(Ordering::Greater));
    assert_eq!(json_cmp(&Json::Array("[1]".into()), &Json::Array("[1]".into())), None);
    assert_eq!(json_cmp(&Json::Null, &whole(0)), None);
}

#[test]
fn numbers_compare_by_value() {
    let big = 1i128 << 53;
    assert_eq!(json_cmp(&whole(big + 1), &whole(big)), Some(Ordering::Greater));
    assert_eq!(json_cmp(&whole(big), &whole(big + 1)), Some(Ordering::Less));
    assert_eq!(json_cmp(&whole(big), &fraction(big as f64)), Some(Ordering::Equal));
    assert_eq!(json_cmp(&whole(big + 1), &fraction(big as f64)), Some(Ordering::Greater));
    assert_eq!(json_cmp(&fraction(big as f64), &whole(big + 1)), Some(Ordering::Less));
    assert_eq!(json_cmp(&fraction(0.5), &whole(0)), Some(Ordering::Greater));
    assert_eq!(json_cmp(&fraction(-0.5), &whole(0)), Some(Ordering::Less));
    assert_eq!(json_cmp(&fraction(-0.0), &whole(0)), Some(Ordering::Equal));
    assert_eq!(json_cmp(&whole(i128::MAX), &fraction(1e300)), Some(Ordering::Less));
    let row = row(&[("v", "9007199254740993")]);
    let at = |op: CmpOp, i: i128| {
        Predicate::Cmp { field: "v".to_string(), op, value: whole(i) }.eval(&row)
    };
    assert!(at(CmpOp::Gt, big) && at(CmpOp::Ne, big) && at(CmpOp::Eq, big + 1));
    assert!(!at(CmpOp::Eq, big) && !at(CmpOp::Le, big));
}

#[test]
fn numeric_strings_are_numbers() {
    assert_eq!(as_f64(&string("1e3")), Some(Float { bits: 1000f64.to_bits() }));
    assert_eq!(as_f64(&string(" 1")), None);
    assert_eq!(as_f64(&string("-inf")), Some(Float { bits: f64::NEG_INFINITY.to_bits() }));
    assert_eq!(as_f64(&Json::Null), None);
}

#[test]
fn predicate_missing_field_filters_out() {
    let p = cmp("x", CmpOp::Gt, whole(0));
    assert!(!p.eval(&row(&[("y", "5")])));
    assert!(cmp("x", CmpOp::Eq, Json::Null).eval(&row(&[("y", "5")])));
}

#[test]
fn predicate_and_or_not() {
    let r = row(&[("a", "5"), ("b", "\"hi\"")]);
    let a = cmp("a", CmpOp::Gt, whole(0));
    let b = cmp("b", CmpOp::Eq, string("no"));
    assert!(Predicate::And(Box::new(a.clone()), Box::new(Predicate::True)).eval(&r));
    assert!(Predicate::Or(Box::new(a.clone()), Box::new(b.clone())).eval(&r));
    assert!(Predicate::Not(Box::new(b)).eval(&r));
}

#[test]
fn map_shard_global_count_sum() {
    let rows = vec![row(&[("v", "10")]), row(&[("v", "20")]), row(&[("v", "30")])];
    let q = Query::new("t").agg(Agg::Count).agg(Agg::Sum("v".into()));
    let out = q.map_shard(&rows).finalize();
    assert_eq!(out.len(), 1);
    assert_eq!(value(&out[0], "count"), whole(3));
    assert_eq!(value(&out[0], "sum_v"), whole(60));
}

#[test]
fn sum_stays_integer_lane_then_promotes_on_fraction() {
    let q = Query::new("t").agg(Agg::Sum("v".into()));
    let rows = vec![row(&[("v", "1000000000000")]); 3];
    let out = q.map_shard(&rows).finalize();
    assert_eq!(value(&out[0], "sum_v"), whole(3_000_000_000_000));
    let rows2 = vec![row(&[("v", "1")]), row(&[("v", "0.5")])];
    let out2 = q.map_shard(&rows2).finalize();
    assert_eq!(value(&out2[0], "sum_v"), fraction(1.5));
}

#[test]
fn compensated_sum_keeps_what_a_plain_one_loses() {
    let q = Query::new("t").agg(Agg::Sum("v".into()));
    let rows = vec![
        row(&[("v", "0.5")]),
        row(&[("v", "1e100")]),
        row(&[("v", "1.0")]),
        row(&[("v", "-1e100")]),
    ];
    let out = q.map_shard(&rows).finalize();
    assert_eq!(value(&out[0], "sum_v"), fraction(1.5));
    let mut k = KahanSum::zero();
    k.add(Float { bits: 2.5f64.to_bits() });
    assert_eq!(k.value(), Float { bits: 2.5f64.to_bits() });
}

#[test]
fn integer_sum_beyond_range_promotes() {
    let q = Query::new("t").agg(Agg::Sum("v".into()));
    let big = "\"170141183460469231731687303715884105727\"";
    let out = q.map_shard(&[row(&[("v", big)]), row(&[("v", big)])]).finalize();
    assert_eq!(value(&out[0], "sum_v"), fraction(340282366920938463463374607431768211454f64));
    let out = q.map_shard(&[row(&[("v", "18446744073709551615")]), row(&[("v", "1")])]).finalize();
    assert_eq!(value(&out[0], "sum_v"), whole(18446744073709551616));
    let out = q.map_shard(&[row(&[("v", "-9223372036854775808")]), row(&[("v", "-1")])]).finalize();
    assert_eq!(value(&out[0], "sum_v"), whole(-9223372036854775809));
}

#[test]
fn map_shard_group_by() {
    let rows = vec![
        row(&[("g", "\"a\""), ("v", "1")]),
        row(&[("g", "\"b\""), ("v", "2")]),
        row(&[("g", "\"a\""), ("v", "3")]),
    ];
    let q = Query::new("t").agg(Agg::Sum("v".into())).group("g");
    let out = q.map_shard(&rows).finalize();
    assert_eq!(out.len(), 2);
    assert_eq!(out[0].key, vec!["a".to_string()]);
    assert_eq!(value(&out[0], "sum_v"), whole(4));
    assert_eq!(out[1].key, vec!["b".to_string()]);
    assert_eq!(value(&out[1], "sum_v"), whole(2));
}

#[test]
fn group_keys_are_texts_of_other_values() {
    let rows = vec![
        row(&[("g", "1.50"), ("v", "1")]),
        row(&[("g", "[1, 2]"), ("v", "1")]),
        row(&[("v", "1")]),
        row(&[("g", "null"), ("v", "1")]),
    ];
    let q = Query::new("t").agg(Agg::Count).group("g");
    let keys: Vec<String> = q.map_shard(&rows).finalize().iter().map(|g| g.key[0].clone()).collect();
    assert_eq!(keys, vec!["", "1.5", "[1,2]", "null"]);
}

#[test]
fn avg_and_minmax() {
    let rows = vec![row(&[("v", "2")]), row(&[("v", "4")]), row(&[("v", "6")])];
    let q = Query::new("t")
        .agg(Agg::Avg("v".into()))
        .agg(Agg::Min("v".into()))
        .agg(Agg::Max("v".into()));
    let out = q.map_shard(&rows).finalize();
    assert_eq!(value(&out[0], "avg_v"), fraction(4.0));
    assert_eq!(value(&out[0], "min_v"), fraction(2.0));
    assert_eq!(value(&out[0], "max_v"), fraction(6.0));
}

#[test]
fn non_numeric_values_skipped() {
    let rows = vec![row(&[("v", "10")]), row(&[("v", "\"oops\"")]), row(&[("v", "20")])];
    let q = Query::new("t").agg(Agg::Sum("v".into())).agg(Agg::Count);
    let out = q.map_shard(&rows).finalize();
    assert_eq!(value(&out[0], "sum_v"), whole(30));
    assert_eq!(value(&out[0], "count"), whole(3));
}

#[test]
fn validate_requires_aggregate() {
    assert!(Query::new("t").validate().is_err());
    assert!(Query::new("t").agg(Agg::Count).validate().is_ok());
    assert!(Query::new("").agg(Agg::Count).validate().is_err());
    assert_eq!(Query::new(" \t").agg(Agg::Count).validate(), Err(QueryError::NoDataset));
    assert_eq!(Query::new("t").validate(), Err(QueryError::NoAggregates));
    assert!(QueryError::NoAggregates.message().contains("no aggregates"));
}

#[test]
fn projection_query_validates_and_maps() {
    let q = Query::new("t").project(vec!["a".into(), "b".into()]);
    assert!(q.is_projection());
    assert!(q.validate().is_ok());
    let rows = vec![
        row(&[("a", "1"), ("b", "\"x\""), ("c", "true")]),
        row(&[("a", "2"), ("b", "\"y\"")]),
    ];
    let out = q.project_shard(&rows);
    assert_eq!(out.len(), 2);
    assert_eq!(out[0].get(&"a".to_string()).unwrap().value, whole(1));
    assert_eq!(out[0].get(&"b".to_string()).unwrap().value, string("x"));
    assert!(out[0].get(&"c".to_string()).is_none(), "c was not projected");
}

#[test]
fn projection_star_keeps_all_columns_and_applies_where() {
    let q = Query::new("t").project(vec![]).filter(cmp("a", CmpOp::Gt, whole(1)));
    let rows =
        vec![row(&[("a", "1"), ("b", "\"x\"")]), row(&[("a", "5"), ("b", "\"y\"")])];
    let out = q.project_shard(&rows);
    assert_eq!(out.len(), 1, "WHERE a > 1 keeps one row");
    assert_eq!(out[0].get(&"a".to_string()).unwrap().value, whole(5));
    assert_eq!(out[0].get(&"b".to_string()).unwrap().value, string("y"));
}

#[test]
fn projection_and_aggregate_are_mutually_exclusive() {
    let mut q = Query::new("t").agg(Agg::Count);
    q.projection = Some(vec!["a".into()]);
    assert_eq!(q.validate(), Err(QueryError::ProjectionWithAggregates));
    let mut q = Query::new("t").project(vec![]);
    q.group_by.push("g".into());
    assert_eq!(q.validate(), Err(QueryError::ProjectionWithGroups));
}

#[test]
fn agg_output_names() {
    assert_eq!(Agg::Count.output_name(), "count");
    assert_eq!(Agg::Sum("x".into()).output_name(), "sum_x");
    assert_eq!(Agg::Avg("y".into()).output_name(), "avg_y");
    assert_eq!(Agg::Min("y".into()).output_name(), "min_y");
    assert_eq!(Agg::Max("y".into()).output_name(), "max_y");
}

#[test]
fn builder_order_and_limit() {
    let q = Query::new("t")
        .agg(Agg::Count)
        .group("g")
        .order(OrderKey::desc("count"))
        .order(OrderKey::asc("g"))
        .limit(7);
    assert_eq!(q.order_by, vec![OrderKey::desc("count"), OrderKey::asc("g")]);
    assert_eq!(q.limit, Some(7));
}

#[test]
fn shape_orders_then_limits() {
    let q = Query::new("t").agg(Agg::Count).group("g").order(OrderKey::desc("count")).limit(2);
    let make = |k: &str, c: i128| {
        let mut values = Table::new();
        values.insert("count".to_string(), whole(c));
        GroupResult { key: vec![k.into()], values }
    };
    let out = q.shape(vec![make("a", 3), make("b", 9), make("c", 1)]);
    let keys: Vec<&str> = out.iter().map(|g| g.key[0].as_str()).collect();
    assert_eq!(keys, vec!["b", "a"]);
}

#[test]
fn folding_into_another_aggregates_state_does_nothing() {
    let mut acc = Accum::Count(5);
    Agg::Min("v".into()).fold(&mut acc, &row(&[("v", "1")]));
    assert_eq!(acc, Accum::Count(5));
    Agg::Count.fold(&mut acc, &row(&[("v", "1")]));
    assert_eq!(acc, Accum::Count(6));
}
