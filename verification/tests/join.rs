use ce_query::combine::GroupResult;
use ce_query::dataset::{decode_shard, encode_shard, Row};
use ce_query::join::{
    distributed_join, hash_join, key_str, merge_rows, partition_by_key, JoinKeys,
};
use ce_query::json::{Json, Num};
use ce_query::query::{Agg, Query};
use sha2::Digest;

/// A row of columns with their JSON texts.
fn row(cells: &[(&str, &str)]) -> Row {
    let fields: Vec<String> = cells.iter().map(|(k, v)| format!("\"{k}\":{v}")).collect();
    let line = format!("{{{}}}", fields.join(","));
    decode_shard(line.as_bytes()).unwrap().remove(0)
}

fn cell(r: &Row, name: &str) -> Json {
    r.get(&name.to_string()).unwrap().value.clone()
}

fn string(s: &str) -> Json {
    Json::String(s.to_string())
}

/// The rows as sorted lines.
fn sig(rows: &[Row]) -> Vec<String> {
    let mut s: Vec<String> = rows
        .iter()
        .map(|r| String::from_utf8(encode_shard(std::slice::from_ref(r)).unwrap()).unwrap())
        .collect();
    s.sort();
    s
}

#[test]
fn inner_join_basic() {
    let users = vec![
        row(&[("uid", "1"), ("name", "\"alice\"")]),
        row(&[("uid", "2"), ("name", "\"bob\"")]),
    ];
    let orders = vec![
        row(&[("uid", "1"), ("amount", "10")]),
        row(&[("uid", "1"), ("amount", "20")]),
        row(&[("uid", "3"), ("amount", "99")]),
    ];
    let out = hash_join(&users, &orders, &JoinKeys::on("uid"));
    assert_eq!(out.len(), 2);
    for r in &out {
        assert_eq!(cell(r, "name"), string("alice"));
    }
}

#[test]
fn join_on_different_column_names() {
    let left = vec![row(&[("id", "1"), ("a", "\"x\"")])];
    let right = vec![row(&[("user_id", "1"), ("b", "\"y\"")])];
    let out = hash_join(&left, &right, &JoinKeys::new("id", "user_id"));
    assert_eq!(out.len(), 1);
    assert_eq!(cell(&out[0], "a"), string("x"));
    assert_eq!(cell(&out[0], "b"), string("y"));
}

#[test]
fn column_clash_is_prefixed_not_lost() {
    let left = vec![row(&[("k", "1"), ("val", "\"L\"")])];
    let right = vec![row(&[("k", "1"), ("val", "\"R\"")])];
    let out = hash_join(&left, &right, &JoinKeys::on("k"));
    assert_eq!(out.len(), 1);
    assert_eq!(cell(&out[0], "val"), string("L"));
    assert_eq!(cell(&out[0], "right.val"), string("R"));
}

#[test]
fn a_prefixed_name_that_is_taken_is_prefixed_again() {
    let left = row(&[("v", "1"), ("right.v", "2")]);
    let right = row(&[("v", "3"), ("right.v", "4")]);
    let out = merge_rows(&left, &right);
    let num = |n: i128| Json::Number(Num::Int(n));
    assert_eq!(out.len(), 4);
    assert_eq!(cell(&out, "v"), num(1));
    assert_eq!(cell(&out, "right.v"), num(2));
    assert_eq!(cell(&out, "right.right.v"), num(4));
    assert_eq!(cell(&out, "right.right.right.v"), num(3));
}

#[test]
fn a_clashing_column_has_the_prefixed_name_before_others() {
    let left = row(&[("v", "1")]);
    let right = row(&[("v", "2"), ("right.v", "3"), ("w", "4")]);
    let out = merge_rows(&left, &right);
    let num = |n: i128| Json::Number(Num::Int(n));
    assert_eq!(out.len(), 4);
    assert_eq!(cell(&out, "v"), num(1));
    assert_eq!(cell(&out, "right.v"), num(2));
    assert_eq!(cell(&out, "right.right.v"), num(3));
    assert_eq!(cell(&out, "w"), num(4));
}

#[test]
fn null_and_missing_key_never_matches() {
    let left = vec![row(&[("k", "null"), ("a", "1")]), row(&[("a", "2")])];
    let right = vec![row(&[("k", "null"), ("b", "3")])];
    let out = hash_join(&left, &right, &JoinKeys::on("k"));
    assert!(out.is_empty(), "null/missing keys must not join (SQL NULL semantics)");
}

#[test]
fn many_to_many_cartesian_within_key() {
    let left = vec![row(&[("k", "1"), ("l", "\"a\"")]), row(&[("k", "1"), ("l", "\"b\"")])];
    let right = vec![row(&[("k", "1"), ("r", "\"x\"")]), row(&[("k", "1"), ("r", "\"y\"")])];
    let out = hash_join(&left, &right, &JoinKeys::on("k"));
    assert_eq!(out.len(), 4);
    let got: Vec<(Json, Json)> = out.iter().map(|r| (cell(r, "l"), cell(r, "r"))).collect();
    assert_eq!(got[1], (string("a"), string("y")));
    assert_eq!(got[2], (string("b"), string("x")));
}

#[test]
fn string_keys_join() {
    let left = vec![row(&[("city", "\"NYC\""), ("pop", "8")])];
    let right = vec![row(&[("city", "\"NYC\""), ("zip", "\"10001\"")])];
    let out = hash_join(&left, &right, &JoinKeys::on("city"));
    assert_eq!(out.len(), 1);
    assert_eq!(cell(&out[0], "zip"), string("10001"));
}

#[test]
fn partition_is_co_located() {
    let n = 5;
    let left: Vec<Row> =
        (0..50).map(|i| row(&[("k", &i.to_string()), ("s", "\"L\"")])).collect();
    let right: Vec<Row> =
        (0..50).map(|i| row(&[("k", &i.to_string()), ("s", "\"R\"")])).collect();
    let lb = partition_by_key(&left, "k", n);
    let rb = partition_by_key(&right, "k", n);
    for i in 0..50 {
        let key = i.to_string();
        let lbi = lb.iter().position(|b| b.iter().any(|r| key_str(r, "k").as_deref() == Some(&key)));
        let rbi = rb.iter().position(|b| b.iter().any(|r| key_str(r, "k").as_deref() == Some(&key)));
        assert!(lbi.is_some());
        assert_eq!(lbi, rbi, "key {key} landed in different buckets");
    }
}

#[test]
fn buckets_are_the_first_bytes_of_the_digest() {
    let rows: Vec<Row> = (0..20).map(|i| row(&[("k", &format!("\"key{i}\""))])).collect();
    let buckets = partition_by_key(&rows, "k", 7);
    for i in 0..20 {
        let key = format!("key{i}");
        let digest = sha2::Sha256::digest(key.as_bytes());
        let mut head = [0u8; 8];
        head.copy_from_slice(&digest[..8]);
        let b = (u64::from_be_bytes(head) % 7) as usize;
        assert!(buckets[b].iter().any(|r| key_str(r, "k") == Some(key.clone())));
    }
}

#[test]
fn partition_drops_null_keys() {
    let rows = vec![row(&[("k", "null"), ("a", "1")]), row(&[("k", "5")])];
    let buckets = partition_by_key(&rows, "k", 3);
    let total: usize = buckets.iter().map(|b| b.len()).sum();
    assert_eq!(total, 1, "null/missing-key rows are dropped from partitions");
    assert_eq!(partition_by_key(&rows, "k", 0).len(), 1);
}

#[test]
fn distributed_join_equals_hash_join_single_partition() {
    let left = vec![row(&[("k", "1"), ("a", "\"p\"")]), row(&[("k", "2"), ("a", "\"q\"")])];
    let right = vec![row(&[("k", "1"), ("b", "\"x\"")]), row(&[("k", "2"), ("b", "\"y\"")])];
    let one = hash_join(&left, &right, &JoinKeys::on("k"));
    let dist = distributed_join(&left, &right, &JoinKeys::on("k"), 1);
    assert_eq!(sig(&one), sig(&dist));
}

#[test]
fn join_feeds_aggregate_engine() {
    let users = vec![
        row(&[("uid", "1"), ("name", "\"alice\"")]),
        row(&[("uid", "2"), ("name", "\"bob\"")]),
    ];
    let orders = vec![
        row(&[("uid", "1"), ("amount", "10")]),
        row(&[("uid", "1"), ("amount", "5")]),
        row(&[("uid", "2"), ("amount", "7")]),
    ];
    let joined = distributed_join(&users, &orders, &JoinKeys::on("uid"), 3);
    let q = Query::new("j").agg(Agg::Sum("amount".into())).group("name");
    let out = q.map_shard(&joined).finalize();
    let sum = |g: &GroupResult| g.values.get(&"sum_amount".to_string()).unwrap().clone();
    assert_eq!(out[0].key[0], "alice");
    assert_eq!(sum(&out[0]), Json::Number(Num::Int(15)));
    assert_eq!(out[1].key[0], "bob");
    assert_eq!(sum(&out[1]), Json::Number(Num::Int(7)));
}

fn sides() -> (Vec<Row>, Vec<Row>) {
    let left = (0..20)
        .map(|i| row(&[("k", &((i * i) % 8).to_string()), ("li", &i.to_string())]))
        .collect();
    let right = (0..17)
        .map(|i| row(&[("k", &((i * 3) % 8).to_string()), ("ri", &i.to_string())]))
        .collect();
    (left, right)
}

#[test]
fn distributed_equals_hashjoin() {
    let (left, right) = sides();
    let one = hash_join(&left, &right, &JoinKeys::on("k"));
    for parts in 0..7 {
        let dist = distributed_join(&left, &right, &JoinKeys::on("k"), parts);
        assert_eq!(sig(&one), sig(&dist));
    }
}

#[test]
fn join_cardinality() {
    let (left, right) = sides();
    let out = hash_join(&left, &right, &JoinKeys::on("k"));
    let count = |rows: &[Row], k: usize| {
        rows.iter().filter(|r| key_str(r, "k") == Some(k.to_string())).count()
    };
    let expected: usize = (0..8).map(|k| count(&left, k) * count(&right, k)).sum();
    assert_eq!(out.len(), expected);
}
