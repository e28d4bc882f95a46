use ce_query::dataset::{decode_shard, encode_shard, Dataset, Row, Shard};
use ce_query::engine::MapError;
use ce_query::mesh::{
    accept_partial, accept_rows, answer, check_reply_size, check_request_size,
    classify_fetch_error, classify_lowered_fetch, classify_request_error, grant_check, host_list,
    intake, record_shard, refresh_due, revocations, rows_of_blob, screen, GrantCheck, Intake,
    MapReply, MapRequest, MAP_TOPIC, MAX_MAP_PAYLOAD_BYTES,
};
use ce_query::query::{Agg, Query};

fn row(v: i64) -> Row {
    decode_shard(format!("{{\"v\":{v}}}").as_bytes()).unwrap().remove(0)
}

fn request(query: Query) -> MapRequest {
    MapRequest { query, shard: Shard::new("cid", 0, 0), grant: None }
}

#[test]
fn error_classification() {
    let missing = classify_fetch_error("cid", "HTTP 404 not found");
    assert_eq!(missing, MapError::MissingBlob("cid".into()));
    let to = classify_fetch_error("cid", "request timed out");
    assert_eq!(to, MapError::Timeout);
    let other = classify_fetch_error("cid", "HTTP 500 boom");
    assert!(matches!(other, MapError::HostError(_)));

    assert_eq!(classify_request_error("504 gateway timeout"), MapError::Timeout);
    assert!(matches!(classify_request_error("502 bad gateway"), MapError::HostError(_)));
}

#[test]
fn error_classification_does_not_look_at_case() {
    assert_eq!(classify_fetch_error("c", "Not FOUND"), MapError::MissingBlob("c".into()));
    assert_eq!(classify_request_error("TimeOut"), MapError::Timeout);
    assert_eq!(classify_request_error("Boom"), MapError::HostError("Boom".into()));
    assert_eq!(
        classify_lowered_fetch("c", "Boom", "a timeout"),
        MapError::Timeout
    );
}

#[test]
fn requests_are_screened_before_any_fetch() {
    let r = request(Query::new("t").agg(Agg::Count));
    let refused = screen(&r, Err("no grant".into())).unwrap_err();
    assert_eq!(refused, "unauthorized: no grant");
    let refused = screen(&request(Query::new("t")), Ok(())).unwrap_err();
    assert!(refused.contains("invalid query"), "{refused}");
    assert_eq!(screen(&r, Ok(())), Ok(()));
}

#[test]
fn a_request_is_answered_from_the_bytes_of_its_shard() {
    let rows = vec![row(1), row(2)];
    let bytes = encode_shard(&rows).unwrap();
    let q = Query::new("t").agg(Agg::Count);
    let reply = answer(&request(q.clone()), Ok(bytes.clone()));
    assert_eq!(reply, MapReply::Answer(q.map_shard(&rows)));
    assert_eq!(accept_partial(reply.clone()), Ok(q.map_shard(&rows)));
    assert_eq!(
        accept_rows(reply),
        Err(MapError::Corrupt("host returned a partial for a projection query".into()))
    );
    let p = Query::new("t").project(vec![]);
    let reply = answer(&request(p), Ok(bytes));
    assert_eq!(reply, MapReply::Rows(rows.clone()));
    assert_eq!(accept_rows(reply.clone()), Ok(rows));
    assert_eq!(
        accept_partial(reply),
        Err(MapError::Corrupt("host returned rows for an aggregate query".into()))
    );
    assert_eq!(
        answer(&request(q.clone()), Err("gone".into())),
        MapReply::Failure("fetch cid: gone".into())
    );
    assert_eq!(
        answer(&request(q), Ok(b"[]".to_vec())),
        MapReply::Failure("decode shard: shard line 1 is not a JSON object: []".into())
    );
    assert_eq!(
        accept_rows(MapReply::Failure("x".into())),
        Err(MapError::HostError("x".into()))
    );
}

#[test]
fn payloads_are_bounded() {
    assert_eq!(check_request_size(MAX_MAP_PAYLOAD_BYTES), Ok(()));
    assert_eq!(
        check_request_size(MAX_MAP_PAYLOAD_BYTES + 1),
        Err(MapError::HostError(
            "map request is 33554433 bytes, exceeds the 33554432-byte limit".into()
        ))
    );
    assert_eq!(
        check_reply_size(40_000_000),
        Err(MapError::HostError(
            "map reply is 40000000 bytes, exceeds the 33554432-byte limit".into()
        ))
    );
    assert_eq!(
        rows_of_blob("c", &vec![b' '; MAX_MAP_PAYLOAD_BYTES + 1]),
        Err(MapError::HostError(
            "shard c is 33554433 bytes, exceeds the 33554432-byte scan limit".into()
        ))
    );
    assert_eq!(
        rows_of_blob("c", b"nope"),
        Err(MapError::Corrupt("malformed JSON on shard line 1".into()))
    );
    assert_eq!(rows_of_blob("c", b"{\"v\":1}"), Ok(vec![row(1)]));
}

#[test]
fn an_agent_takes_requests_on_its_topic() {
    assert_eq!(intake(MAP_TOPIC, true, Some(10)), Intake::Read);
    assert_eq!(intake(MAP_TOPIC, true, Some(MAX_MAP_PAYLOAD_BYTES + 1)), Intake::TooLarge);
    assert_eq!(intake("other", true, Some(10)), Intake::Skip);
    assert_eq!(intake(MAP_TOPIC, false, Some(10)), Intake::Skip);
    assert_eq!(intake(MAP_TOPIC, true, None), Intake::Skip);
}

#[test]
fn an_agent_may_require_tokens() {
    let token = Some("tok".to_string());
    assert_eq!(grant_check(false, false, &None), GrantCheck::Open);
    assert_eq!(grant_check(true, false, &token), GrantCheck::Refused("unknown requester".into()));
    assert_eq!(grant_check(true, true, &None), GrantCheck::Refused("grant required".into()));
    assert_eq!(grant_check(true, true, &token), GrantCheck::Verify("tok".into()));
}

#[test]
fn revocations_are_read_anew_on_an_interval() {
    assert!(!refresh_due(0, 100, 0));
    assert!(refresh_due(30, 130, 100));
    assert!(!refresh_due(30, 129, 100));
    assert!(!refresh_due(30, 50, 100));
    let id = "01".repeat(32);
    let list = vec![(id, 7), ("junk".to_string(), 8)];
    assert_eq!(revocations(&list), vec![(vec![1u8; 32], 7)]);
}

#[test]
fn hosts_are_listed_once_and_in_order() {
    let found: Vec<String> = ["b", "a", "c", "a", "b"].iter().map(|s| s.to_string()).collect();
    assert_eq!(host_list(&found), vec!["a", "b", "c"]);
    assert!(host_list(&vec![]).is_empty());
}

#[test]
fn stored_shards_are_recorded_with_their_ranges() {
    let mut d = Dataset::new("t", vec![]);
    record_shard(&mut d, "cid", &[row(3), row(5)], 17);
    record_shard(&mut d, "none", &[], 0);
    assert_eq!(d.shards.len(), 1);
    assert_eq!((d.shards[0].rows, d.shards[0].bytes), (2, 17));
    let stats = d.shards[0].stats.as_ref().unwrap();
    let (low, high) = stats.numeric.get(&"v".to_string()).unwrap();
    assert_eq!((f64::from_bits(low.bits), f64::from_bits(high.bits)), (3.0, 5.0));
}
