use ce_query::dataset::{compute_stats, decode_shard, Row, Shard, ShardStats};
use ce_query::float::Float;
use ce_query::json::{Json, Num};
use ce_query::plan::{
    fallback_host, load_summary, plan, rank_hosts, rendezvous_score, shard_can_match,
};
use ce_query::query::{CmpOp, Predicate};
use ce_query::table::Table;
use sha2::Digest;

fn shard(cid: &str) -> Shard {
    Shard::new(cid, 0, 0)
}

fn hosts(n: usize) -> Vec<String> {
    (0..n).map(|i| format!("host{i:02}")).collect()
}

fn stats(col: &str, min: f64, max: f64) -> ShardStats {
    let mut numeric = Table::new();
    numeric.insert(
        col.to_string(),
        (Float { bits: min.to_bits() }, Float { bits: max.to_bits() }),
    );
    ShardStats { numeric }
}

fn cmp(field: &str, op: CmpOp, value: Json) -> Predicate {
    Predicate::Cmp { field: field.to_string(), op, value }
}

fn whole(i: i128) -> Json {
    Json::Number(Num::Int(i))
}

#[test]
fn pruning_skips_provably_non_matching_shard() {
    let s = stats("v", 0.0, 10.0);
    assert!(!shard_can_match(Some(&s), &cmp("v", CmpOp::Gt, whole(100))));
    assert!(shard_can_match(Some(&s), &cmp("v", CmpOp::Gt, whole(5))));
    assert!(!shard_can_match(Some(&s), &cmp("v", CmpOp::Lt, whole(0))));
    assert!(shard_can_match(Some(&s), &cmp("v", CmpOp::Eq, whole(5))));
    assert!(!shard_can_match(Some(&s), &cmp("v", CmpOp::Eq, whole(50))));
    assert!(shard_can_match(Some(&s), &cmp("v", CmpOp::Le, whole(0))));
    assert!(shard_can_match(Some(&s), &cmp("v", CmpOp::Ge, whole(10))));
    assert!(!shard_can_match(Some(&s), &cmp("v", CmpOp::Ge, whole(11))));
    assert!(shard_can_match(Some(&s), &cmp("v", CmpOp::Ne, whole(5))));
}

#[test]
fn pruning_is_conservative_without_stats_or_on_unknown_column() {
    let s = stats("v", 0.0, 10.0);
    let p = cmp("v", CmpOp::Gt, whole(100));
    assert!(shard_can_match(None, &p));
    assert!(shard_can_match(Some(&s), &cmp("other", CmpOp::Gt, whole(100))));
    assert!(shard_can_match(Some(&s), &cmp("v", CmpOp::Eq, Json::String("x".into()))));
    let neg = Predicate::Not(Box::new(p.clone()));
    assert!(shard_can_match(Some(&s), &neg));
}

#[test]
fn pruning_and_or_compose() {
    let s = stats("v", 0.0, 10.0);
    let a = cmp("v", CmpOp::Gt, whole(100));
    let b = cmp("v", CmpOp::Lt, whole(5));
    let and = Predicate::And(Box::new(a.clone()), Box::new(b.clone()));
    assert!(!shard_can_match(Some(&s), &and));
    let or = Predicate::Or(Box::new(a), Box::new(b));
    assert!(shard_can_match(Some(&s), &or));
}

#[test]
fn ranking_is_deterministic() {
    let h = hosts(5);
    let a = rank_hosts("cidA", &h);
    let b = rank_hosts("cidA", &h);
    assert_eq!(a, b);
    assert_eq!(a.len(), 5);
    let set: std::collections::HashSet<_> = a.iter().collect();
    assert_eq!(set.len(), 5);
    let mut turned = h.clone();
    turned.reverse();
    assert_eq!(rank_hosts("cidA", &turned), a);
}

#[test]
fn scores_are_the_first_bytes_of_the_digest() {
    let digest = sha2::Sha256::digest(b"cid|host");
    let mut head = [0u8; 8];
    head.copy_from_slice(&digest[..8]);
    assert_eq!(rendezvous_score("cid", "host"), u64::from_be_bytes(head));
    let h = hosts(9);
    let ranked = rank_hosts("cid", &h);
    for pair in ranked.windows(2) {
        assert!(rendezvous_score("cid", &pair[0]) > rendezvous_score("cid", &pair[1]));
    }
}

#[test]
fn plan_assigns_every_shard_a_primary() {
    let shards: Vec<Shard> = (0..20).map(|i| shard(&format!("cid{i}"))).collect();
    let h = hosts(4);
    let tasks = plan(&shards, &h);
    assert_eq!(tasks.len(), 20);
    assert!(tasks.iter().all(|t| t.host().is_some()));
}

#[test]
fn no_hosts_means_exhausted_tasks() {
    let tasks = plan(&[shard("c0"), shard("c1")], &[]);
    assert!(tasks.iter().all(|t| t.exhausted()));
    assert!(tasks.iter().all(|t| t.host().is_none()));
}

#[test]
fn next_walks_the_fallback_chain_then_exhausts() {
    let h = hosts(3);
    let mut t = plan(&[shard("cid")], &h).remove(0);
    let primary = t.host().unwrap().to_string();
    assert_eq!(t.attempt, 0);

    assert!(t.advance()); // -> second
    assert_ne!(t.host().unwrap(), primary);
    assert!(t.advance()); // -> third
    assert!(!t.advance()); // exhausted (only 3 hosts)
    assert!(t.exhausted());
    assert!(t.host().is_none());
}

#[test]
fn fallback_host_matches_ranking() {
    let h = hosts(4);
    let ranked = rank_hosts("cidZ", &h);
    for (i, want) in ranked.iter().enumerate() {
        assert_eq!(fallback_host("cidZ", &h, i).as_ref(), Some(want));
    }
    assert_eq!(fallback_host("cidZ", &h, 4), None);
}

#[test]
fn removing_a_host_only_rehomes_its_shards() {
    let shards: Vec<Shard> = (0..200).map(|i| shard(&format!("cid{i}"))).collect();
    let full = hosts(6);
    let dropped = &full[3]; // remove host03
    let reduced: Vec<String> = full.iter().filter(|h| *h != dropped).cloned().collect();

    let before = plan(&shards, &full);
    let after = plan(&shards, &reduced);

    for (b, a) in before.iter().zip(after.iter()) {
        let before_host = b.host().unwrap();
        let after_host = a.host().unwrap();
        if before_host != dropped {
            assert_eq!(before_host, after_host, "shard {} moved unexpectedly", b.shard.cid);
        }
        let kept: Vec<String> = b.ranked_hosts.iter().filter(|h| *h != dropped).cloned().collect();
        assert_eq!(kept, a.ranked_hosts);
    }
}

#[test]
fn balanced_assignment() {
    for (nshards, nhosts) in [(100usize, 2usize), (200, 4), (299, 7)] {
        let shards: Vec<Shard> = (0..nshards).map(|i| shard(&format!("s{i}"))).collect();
        let tasks = plan(&shards, &hosts(nhosts));
        let load = load_summary(&tasks);
        let fair = nshards as f64 / nhosts as f64;
        assert_eq!(load.len(), nhosts);
        let mut total = 0;
        for i in 0..load.len() {
            let count = *load.value_at(i);
            total += count;
            assert!(count as f64 <= fair * 3.0 + 5.0, "host overloaded: {count} vs fair {fair}");
        }
        assert_eq!(total, nshards);
    }
}

#[test]
fn pruning_never_drops_a_matching_shard() {
    let values: Vec<i128> = (0..30).map(|i| (i * 613) % 2003 - 1000).collect();
    let text: String = values.iter().map(|v| format!("{{\"v\":{v}}}\n")).collect();
    let rows: Vec<Row> = decode_shard(text.as_bytes()).unwrap();
    let stats = compute_stats(&rows);
    for t in (-1100..1100).step_by(7) {
        for op in [CmpOp::Gt, CmpOp::Lt, CmpOp::Ge, CmpOp::Le, CmpOp::Eq, CmpOp::Ne] {
            let p = cmp("v", op, whole(t));
            if rows.iter().any(|r| p.eval(r)) {
                assert!(shard_can_match(Some(&stats), &p), "pruned a matching shard ({op:?}, {t})");
            }
        }
    }
}

#[test]
fn a_string_literal_never_prunes() {
    let rows: Vec<Row> = decode_shard(b"{\"v\":\"10\"}").unwrap();
    let stats = compute_stats(&rows);
    let p = cmp("v", CmpOp::Lt, Json::String("9".into()));
    assert!(p.eval(&rows[0]), "strings compare by their characters");
    assert!(shard_can_match(Some(&stats), &p));
}

#[test]
fn pruning_keeps_integers_that_the_range_rounds() {
    let rows: Vec<Row> = decode_shard(b"{\"v\":9007199254740993}\n").unwrap();
    let s = compute_stats(&rows);
    let p = cmp("v", CmpOp::Gt, whole(9007199254740992));
    assert!(p.eval(&rows[0]));
    assert!(shard_can_match(Some(&s), &p));
    let p = cmp("v", CmpOp::Lt, whole(9007199254740994));
    assert!(p.eval(&rows[0]) && shard_can_match(Some(&s), &p));
    assert!(!shard_can_match(Some(&s), &cmp("v", CmpOp::Lt, whole(9007199254740990))));
}
