use ce_query::catalog::{lock_step, Catalog, CatalogError, LockStep, CATALOG_SCHEMA_VERSION};
use ce_query::dataset::Dataset;

#[test]
fn put_get_remove() {
    let mut c = Catalog::new();
    let mut d = Dataset::new("sales", vec!["amount".into()]);
    d.add_shard("cid1", 10, 100);
    c.put(d.clone());
    c.put(Dataset::new("logs", vec![]));
    assert_eq!(c.get("sales"), Some(&d));
    assert_eq!(c.names(), vec!["logs".to_string(), "sales".to_string()]);
    let removed = c.remove("sales").unwrap();
    assert_eq!(removed, d);
    assert!(c.remove("sales").is_err());
    assert_eq!(c.names(), vec!["logs".to_string()]);
}

#[test]
fn require_errors_clearly() {
    let c = Catalog::new();
    let err = c.require("nope").unwrap_err();
    assert!(err.message().contains("no such dataset"), "{}", err.message());
    assert_eq!(err.message(), "no such dataset `nope`");
}

#[test]
fn put_returns_previous() {
    let mut c = Catalog::new();
    assert!(c.put(Dataset::new("t", vec![])).is_none());
    let prev = c.put(Dataset::new("t", vec!["x".into()]));
    assert!(prev.is_some());
    assert!(prev.unwrap().schema.is_empty());
}

#[test]
fn an_older_catalog_is_brought_forward_and_a_newer_one_refused() {
    let mut c = Catalog { version: 0, ..Catalog::new() };
    assert_eq!(c.stamped().version, CATALOG_SCHEMA_VERSION);
    assert!(c.migrate().is_ok());
    assert_eq!(c.version, CATALOG_SCHEMA_VERSION);
    c.version = 999999;
    let err = c.migrate().unwrap_err();
    assert_eq!(err, CatalogError::Newer(999999));
    assert!(err.message().contains("newer than this build"), "{}", err.message());
    assert_eq!(c.version, 999999);
}

#[test]
fn a_stale_lock_is_reclaimed() {
    assert_eq!(lock_step(Some((61, false)), 0, 10), LockStep::Reclaim);
    assert_eq!(lock_step(Some((60, true)), 0, 10), LockStep::Reclaim);
    assert_eq!(lock_step(Some((60, false)), 0, 10), LockStep::Wait);
    assert_eq!(lock_step(None, 10, 10), LockStep::GiveUp);
    assert_eq!(lock_step(None, 9, 10), LockStep::Wait);
}
