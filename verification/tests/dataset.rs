use ce_query::dataset::{
    compute_stats, decode_shard, encode_shard, shard_rows, validate_dataset_name, Dataset,
    NameError, Row, Shard, ShardError, ShardStats, MAX_DATASET_NAME_LEN,
};
use ce_query::float::Float;
use ce_query::json::{Json, Num};
use ce_query::table::Table;
use sha2::Digest;

/// A row of columns with their JSON texts.
fn row(cells: &[(&str, &str)]) -> Row {
    let fields: Vec<String> = cells.iter().map(|(k, v)| format!("\"{k}\":{v}")).collect();
    let line = format!("{{{}}}", fields.join(","));
    decode_shard(line.as_bytes()).unwrap().remove(0)
}

fn f(x: f64) -> Float {
    Float { bits: x.to_bits() }
}

fn name(s: &str) -> String {
    s.to_string()
}

#[test]
fn shard_roundtrip() {
    let rows = vec![
        row(&[("a", "1"), ("b", "\"x\"")]),
        row(&[("a", "2"), ("b", "\"y\"")]),
    ];
    let bytes = encode_shard(&rows).unwrap();
    let back = decode_shard(&bytes).unwrap();
    assert_eq!(back, rows);
    assert_eq!(bytes, b"{\"a\":1,\"b\":\"x\"}\n{\"a\":2,\"b\":\"y\"}\n".to_vec());
}

#[test]
fn any_value_survives_a_round_trip() {
    let text = "{\"z\":-0,\"a\\n\\u0001\\\"\":1e300,\"n\":null,\"t\":true,\"o\":{\"y\":[1,{}],\"x\":\"\\n\"},\"u\":18446744073709551615,\"é\":\"\\u2028é\"}";
    let rows = decode_shard(text.as_bytes()).unwrap();
    let bytes = encode_shard(&rows).unwrap();
    assert_eq!(decode_shard(&bytes).unwrap(), rows);
    let r = &rows[0];
    assert_eq!(r.len(), 7);
    assert_eq!(r.get(&name("z")).unwrap().value, Json::Number(Num::Float(f(-0.0))));
    assert_eq!(r.get(&name("z")).unwrap().text, "-0.0");
    assert_eq!(r.get(&name("a\n\u{1}\"")).unwrap().value, Json::Number(Num::Float(f(1e300))));
    assert_eq!(r.get(&name("n")).unwrap().value, Json::Null);
    assert_eq!(r.get(&name("t")).unwrap().value, Json::Bool(true));
    assert_eq!(r.get(&name("u")).unwrap().value, Json::Number(Num::Int(u64::MAX as i128)));
    assert_eq!(
        r.get(&name("o")).unwrap().value,
        Json::Object(name("{\"x\":\"\\n\",\"y\":[1,{}]}"))
    );
    assert_eq!(r.get(&name("é")).unwrap().value, Json::String(name("\u{2028}é")));
}

#[test]
fn empty_shard_roundtrips_to_empty() {
    let bytes = encode_shard(&[]).unwrap();
    assert!(bytes.is_empty());
    assert!(decode_shard(&bytes).unwrap().is_empty());
}

#[test]
fn decode_skips_blank_lines_and_trailing_newline() {
    let bytes = b"{\"a\":1}\n\n{\"a\":2}\n".to_vec();
    let rows = decode_shard(&bytes).unwrap();
    assert_eq!(rows.len(), 2);
    assert_eq!(decode_shard(b" \r\n\t{\"a\":1} \r\n").unwrap().len(), 1);
}

#[test]
fn decode_rejects_malformed_json() {
    let err = decode_shard(b"{not json}\n").unwrap_err();
    assert!(err.message().contains("malformed JSON"), "{}", err.message());
    let err = decode_shard(b"{}\n\n{\"a\":}\n").unwrap_err();
    assert_eq!(err, ShardError::Malformed(3));
    assert_eq!(err.message(), "malformed JSON on shard line 3");
}

#[test]
fn decode_rejects_non_object_line() {
    let err = decode_shard(b"[1,2,3]\n").unwrap_err();
    assert!(err.message().contains("not a JSON object"), "{}", err.message());
    assert_eq!(err.message(), "shard line 1 is not a JSON object: [1,2,3]");
}

#[test]
fn decode_rejects_non_utf8() {
    let err = decode_shard(&[0xff, 0xfe, 0x00]).unwrap_err();
    assert!(err.message().contains("not valid UTF-8"), "{}", err.message());
}

#[test]
fn a_repeated_column_keeps_the_last_value() {
    let rows = decode_shard(b"{\"a\":1,\"a\":2}").unwrap();
    assert_eq!(rows[0].len(), 1);
    assert_eq!(rows[0].get(&name("a")).unwrap().value, Json::Number(Num::Int(2)));
}

#[test]
fn shard_rows_round_robin_balances() {
    let rows: Vec<Row> = (0..10).map(|i| row(&[("i", &i.to_string())])).collect();
    let shards = shard_rows(&rows, 3).unwrap();
    assert_eq!(shards.len(), 3);
    let counts: Vec<usize> = shards.iter().map(|(r, _)| r.len()).collect();
    assert_eq!(counts, vec![4, 3, 3]);
    for (r, b) in &shards {
        assert_eq!(&decode_shard(b).unwrap(), r);
    }
    let total: usize = shards.iter().map(|(r, _)| r.len()).sum();
    assert_eq!(total, 10);
    for (k, r) in rows.iter().enumerate() {
        assert_eq!(&shards[k % 3].0[k / 3], r);
    }
}

#[test]
fn shard_rows_more_shards_than_rows_yields_empties() {
    let rows = vec![row(&[("i", "0")])];
    let shards = shard_rows(&rows, 4).unwrap();
    assert_eq!(shards.len(), 4);
    assert_eq!(shards[0].0.len(), 1);
    assert!(shards[1].0.is_empty());
}

#[test]
fn shard_rows_zero_count_errors() {
    assert!(shard_rows(&[], 0).is_err());
    assert_eq!(ShardError::NoShards.message(), "shard_count must be positive");
}

#[test]
fn dataset_name_validation() {
    assert_eq!(validate_dataset_name("sales").unwrap(), "sales");
    assert_eq!(validate_dataset_name("  logs_2026.q1 ").unwrap(), "logs_2026.q1");
    assert!(validate_dataset_name("").is_err());
    assert!(validate_dataset_name("   ").is_err());
    assert!(validate_dataset_name("bad name").is_err()); // whitespace
    assert!(validate_dataset_name("../etc/passwd").is_err()); // path traversal
    assert!(validate_dataset_name("a/b").is_err()); // separator
    assert!(validate_dataset_name(&"x".repeat(MAX_DATASET_NAME_LEN + 1)).is_err());
}

#[test]
fn dataset_name_errors_say_what_is_wrong() {
    assert_eq!(validate_dataset_name("\u{a0}"), Err(NameError::Empty));
    assert_eq!(validate_dataset_name("a b"), Err(NameError::BadCharacter(' ')));
    assert_eq!(validate_dataset_name(&"é".repeat(65)), Err(NameError::TooLong(130)));
    assert!(validate_dataset_name(&"x".repeat(128)).is_ok());
    assert_eq!(
        NameError::TooLong(129).message(),
        "dataset name is 129 chars, exceeds the 128-char limit"
    );
    assert_eq!(
        NameError::BadCharacter('/').message(),
        "dataset name contains an invalid character `/` (allowed: A-Z a-z 0-9 _ - . :)"
    );
}

#[test]
fn compute_stats_records_numeric_min_max() {
    let rows = vec![
        row(&[("v", "5"), ("t", "\"a\"")]),
        row(&[("v", "1"), ("t", "\"b\"")]),
        row(&[("v", "9"), ("t", "\"c\"")]),
    ];
    let s = compute_stats(&rows);
    assert_eq!(s.numeric.get(&name("v")), Some(&(f(1.0), f(9.0))));
    assert!(s.numeric.get(&name("t")).is_none());
}

#[test]
fn compute_stats_disqualifies_mixed_type_column() {
    let rows = vec![row(&[("v", "5")]), row(&[("v", "\"oops\"")]), row(&[("v", "9")])];
    let s = compute_stats(&rows);
    assert!(s.numeric.get(&name("v")).is_none(), "mixed-type column must be disqualified");
}

#[test]
fn compute_stats_takes_numeric_strings_and_ragged_rows() {
    let rows = vec![row(&[("v", "\"10\"")]), row(&[("w", "-2.5")]), row(&[("v", "3")])];
    let s = compute_stats(&rows);
    assert_eq!(s.numeric.get(&name("v")), Some(&(f(3.0), f(10.0))));
    assert_eq!(s.numeric.get(&name("w")), Some(&(f(-2.5), f(-2.5))));
    assert_eq!(compute_stats(&[]).numeric.len(), 0);
}

#[test]
fn add_shard_with_stats_roundtrips() {
    let mut d = Dataset::new("t", vec![]);
    let mut numeric = Table::new();
    numeric.insert(name("v"), (f(0.0), f(10.0)));
    let stats = ShardStats { numeric };
    d.add_shard_with_stats("cid", 5, 50, stats.clone());
    assert_eq!(d.shards[0].stats, Some(stats));
}

#[test]
fn dataset_totals() {
    let mut d = Dataset::new("t", vec!["a".into()]);
    d.add_shard("cid1", 100, 1000);
    d.add_shard("cid2", 50, 500);
    assert_eq!(d.shards.len(), 2);
    assert_eq!(d.total_rows(), 150);
    assert_eq!(d.total_bytes(), 1500);
    assert_eq!(d.shards[1], Shard::new("cid2", 50, 500));
}

#[test]
fn dataset_sharding_is_consistent() {
    let rows: Vec<Row> = (0..10).map(|i| row(&[("v", &i.to_string())])).collect();
    let parts = shard_rows(&rows, 3).unwrap();
    let mut total_rows = 0u64;
    for (rs, bytes) in &parts {
        total_rows += rs.len() as u64;
        if !rs.is_empty() {
            assert_eq!(hex::encode(sha2::Sha256::digest(bytes)).len(), 64);
        }
    }
    assert_eq!(total_rows, 10);
}
