use ce_query::combine::{reduce, Accum, KahanSum, Partial};
use ce_query::dataset::{decode_shard, shard_rows, Row};
use ce_query::float::Float;
use ce_query::json::{Json, Num};
use ce_query::query::{Agg, Query};

fn row(i: i64, g: &str) -> Row {
    decode_shard(format!("{{\"v\":{i},\"g\":\"{g}\"}}").as_bytes()).unwrap().remove(0)
}

fn sample_query() -> Query {
    Query::new("t")
        .agg(Agg::Count)
        .agg(Agg::Sum("v".into()))
        .agg(Agg::Min("v".into()))
        .agg(Agg::Max("v".into()))
        .agg(Agg::Avg("v".into()))
        .group("g")
}

fn sample_values(n: i64) -> Vec<i64> {
    (0..n).map(|i| (i * 7919 + 13) % 1999 - 1000).collect()
}

#[test]
fn empty_is_identity() {
    let q = sample_query();
    let rows: Vec<Row> = (0..5).map(|i| row(i, "a")).collect();
    let p = q.map_shard(&rows);
    let mut merged = p.clone();
    merged.merge(&Partial::empty(q.aggregates.clone()));
    assert_eq!(merged, p, "merging the empty partial must be a no-op");
}

#[test]
fn merge_matches_single_shard() {
    let q = sample_query();
    let all: Vec<Row> = (0..30).map(|i| row(i, if i % 2 == 0 { "a" } else { "b" })).collect();
    let whole = q.map_shard(&all).finalize();

    let s1 = q.map_shard(&all[..10]);
    let s2 = q.map_shard(&all[10..20]);
    let s3 = q.map_shard(&all[20..]);
    let merged = reduce(q.aggregates.clone(), vec![s1, s2, s3]).finalize();
    assert_eq!(merged, whole, "distributed map+reduce must equal single-shard map");
}

#[test]
fn shard_count_invariant() {
    let q = sample_query();
    for n in [0, 1, 2, 17, 59] {
        let rows: Vec<Row> = sample_values(n)
            .into_iter()
            .enumerate()
            .map(|(i, v)| row(v, if i % 3 == 0 { "x" } else { "y" }))
            .collect();
        let whole = q.map_shard(&rows).finalize();
        for count in 1..8 {
            let parts: Vec<Partial> =
                shard_rows(&rows, count).unwrap().iter().map(|(b, _)| q.map_shard(b)).collect();
            assert_eq!(reduce(q.aggregates.clone(), parts).finalize(), whole);
        }
    }
}

#[test]
fn merge_associative() {
    let q = sample_query();
    let values = sample_values(45);
    let part = |from: usize, to: usize| {
        q.map_shard(&values[from..to].iter().map(|&v| row(v, "g")).collect::<Vec<_>>())
    };
    let (pa, pb, pc) = (part(0, 11), part(11, 30), part(30, 45));
    let mut left = pa.clone();
    left.merge(&pb);
    left.merge(&pc);
    let mut right_bc = pb.clone();
    right_bc.merge(&pc);
    let mut right = pa.clone();
    right.merge(&right_bc);
    assert_eq!(left.finalize(), right.finalize());
}

#[test]
fn merge_commutative() {
    let q = sample_query();
    let values = sample_values(40);
    let pa = q.map_shard(&values[..15].iter().map(|&v| row(v, "g")).collect::<Vec<_>>());
    let pb = q.map_shard(&values[15..].iter().map(|&v| row(v, "h")).collect::<Vec<_>>());
    let mut ab = pa.clone();
    ab.merge(&pb);
    let mut ba = pb.clone();
    ba.merge(&pa);
    assert_eq!(ab.finalize(), ba.finalize());
    let f = |x: f64| Float { bits: x.to_bits() };
    let mut k = KahanSum::zero();
    k.add(f(0.1));
    let mut l = KahanSum::zero();
    l.add(f(0.2));
    l.add(f(1e17));
    let (mut x, mut y) = (Accum::Sum(k), Accum::Sum(l));
    x.merge(&Accum::Sum(l));
    y.merge(&Accum::Sum(k));
    assert_eq!(x, y);
    let mut z = Accum::IntSum(7);
    z.merge(&Accum::Sum(k));
    let mut w = Accum::Sum(k);
    w.merge(&Accum::IntSum(7));
    assert_eq!(z, w);
    assert_eq!(z.finalize_value(), Json::Number(Num::Float(f(7.1))));
}

#[test]
fn empty_shards_harmless() {
    let q = sample_query();
    let rows: Vec<Row> = sample_values(25).into_iter().map(|v| row(v, "g")).collect();
    let base = q.map_shard(&rows).finalize();
    for extra in 0..5 {
        let mut parts = vec![q.map_shard(&rows)];
        for _ in 0..extra {
            parts.insert(0, Partial::empty(q.aggregates.clone()));
        }
        assert_eq!(reduce(q.aggregates.clone(), parts).finalize(), base);
    }
}

#[test]
fn min_max_empty_finalize_null() {
    assert_eq!(Accum::Min(None).finalize_value(), Json::Null);
    assert_eq!(Accum::Max(None).finalize_value(), Json::Null);
    assert_eq!(Accum::Avg { sum: KahanSum::zero(), count: 0 }.finalize_value(), Json::Null);
}

#[test]
fn numbers_that_are_not_finite_finalize_null() {
    let inf = Float { bits: f64::INFINITY.to_bits() };
    assert_eq!(Accum::Max(Some(inf)).finalize_value(), Json::Null);
    let mut k = KahanSum::zero();
    k.add(inf);
    assert_eq!(Accum::Sum(k).finalize_value(), Json::Null);
    assert_eq!(Accum::Count(u64::MAX).finalize_value(), Json::Number(Num::Int(u64::MAX as i128)));
    assert_eq!(
        Accum::IntSum(i128::MIN).finalize_value(),
        Json::Number(Num::Int(i128::MIN))
    );
}

#[test]
fn variant_mismatch_is_noop_not_panic() {
    let mut a = Accum::Count(5);
    let mut k = KahanSum::zero();
    k.add(Float { bits: 3.0f64.to_bits() });
    a.merge(&Accum::Sum(k)); // mismatched variants
    assert_eq!(a, Accum::Count(5));
}

#[test]
fn counts_do_not_run_over() {
    let mut a = Accum::Count(u64::MAX);
    a.merge(&Accum::Count(3));
    assert_eq!(a, Accum::Count(u64::MAX));
}

#[test]
fn a_repeated_output_name_keeps_the_last_value() {
    let q = Query::new("t").agg(Agg::Count).agg(Agg::Count);
    let out = q.map_shard(&[row(1, "g")]).finalize();
    assert_eq!(out[0].values.len(), 1);
}

#[test]
fn fractions_with_a_common_step_do_not_depend_on_the_shards() {
    let q = Query::new("t").agg(Agg::Sum("v".into())).agg(Agg::Avg("v".into()));
    let texts = ["0.5", "3", "-1.25", "\"2.75\"", "1e3", "-7", "\"12\"", "0.125", "\"no\"", "4.0"];
    let rows: Vec<Row> = texts
        .iter()
        .map(|t| decode_shard(format!("{{\"v\":{t}}}").as_bytes()).unwrap().remove(0))
        .collect();
    let whole = q.map_shard(&rows);
    for n in 1..=10 {
        let mut parts: Vec<Partial> =
            shard_rows(&rows, n).unwrap().iter().map(|(b, _)| q.map_shard(b)).collect();
        assert_eq!(reduce(q.aggregates.clone(), parts.clone()), whole);
        parts.reverse();
        assert_eq!(reduce(q.aggregates.clone(), parts), whole);
    }
    let sum = whole.finalize()[0].values.get(&"sum_v".to_string()).unwrap().clone();
    assert_eq!(sum, Json::Number(Num::Float(Float { bits: 1014.125f64.to_bits() })));
}
