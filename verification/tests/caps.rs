use ce_query::caps::{
    check_access, expiry, grant_terms, inspect_chain, parse_node_id, scope_allows, InspectError,
    Leaf, NodeIdError, Scope, ABILITY_QUERY,
};

fn leaf(scope: Option<&str>) -> Leaf {
    Leaf { abilities: vec![ABILITY_QUERY.to_string()], path_prefix: scope.map(str::to_string) }
}

#[test]
fn scope_allows_logic() {
    assert!(scope_allows(&Scope::all(), "anything"));
    assert!(scope_allows(&Scope::dataset("sales"), "sales"));
    assert!(!scope_allows(&Scope::dataset("sales"), "events"));
}

#[test]
fn scope_exact_match_does_not_widen_to_siblings() {
    let scope = Scope::dataset("dataset");
    // The exact name is allowed.
    assert!(scope_allows(&scope, "dataset"));
    // Sibling names sharing the prefix must all be rejected.
    for sibling in ["dataset-secret", "datasets", "dataset/secret", "dataset.bak", "datasetX"] {
        assert!(
            !scope_allows(&scope, sibling),
            "exact-match scope `dataset` must NOT admit sibling `{sibling}`"
        );
    }
    // A shorter name that the scope is a prefix-extension of must also be rejected.
    assert!(!scope_allows(&Scope::dataset("dataset-secret"), "dataset"));
}

#[test]
fn scope_caveat_roundtrip() {
    let s = Scope::dataset("sales");
    assert_eq!(Scope::from_caveat(&s.to_caveat()), s);
}

#[test]
fn access_needs_a_chain_an_authorization_and_the_scope() {
    let ok = || Ok(vec![leaf(None), leaf(Some("dataset"))]);
    assert_eq!(check_access(ok(), Ok(()), "dataset"), Ok(()));
    assert_eq!(
        check_access(ok(), Ok(()), "dataset-secret"),
        Err("token scope `dataset` does not cover dataset `dataset-secret`".to_string())
    );
    assert_eq!(check_access(Ok(vec![leaf(None)]), Ok(()), "any"), Ok(()));
    assert_eq!(check_access(Err("bad".into()), Err("late".into()), "d"), Err("bad".to_string()));
    assert_eq!(check_access(Ok(vec![]), Err("late".into()), "d"), Err("late".to_string()));
    assert_eq!(check_access(Ok(vec![]), Ok(()), "d"), Err("empty chain".to_string()));
}

#[test]
fn inspect_rejects_garbage() {
    assert_eq!(inspect_chain(None), Err(InspectError::Undecodable));
    assert_eq!(inspect_chain(Some(&vec![])), Err(InspectError::Empty));
    assert_eq!(InspectError::Undecodable.message(), "decoding query capability");
}

#[test]
fn inspection_reports_ability_and_scope() {
    let terms = grant_terms(&Scope::dataset("logs"), 0, 5);
    assert_eq!(terms.not_after, 0);
    assert_eq!(terms.nonce, 5);
    let chain = vec![Leaf { abilities: terms.abilities, path_prefix: Some(terms.path_prefix) }];
    let (abilities, scope) = inspect_chain(Some(&chain)).unwrap();
    assert_eq!(abilities, vec![ABILITY_QUERY.to_string()]);
    assert_eq!(scope, Scope::dataset("logs"));
}

#[test]
fn expiry_counts_from_now() {
    assert_eq!(expiry(1000, 0), 0);
    assert_eq!(expiry(1000, 3600), 4600);
}

#[test]
fn node_ids_are_hex_of_32_bytes() {
    let text = "00ff".to_string() + &"aB".repeat(30);
    let id = parse_node_id(&format!(" {text}\n")).unwrap();
    assert_eq!(id[..3], [0, 255, 0xab]);
    assert_eq!(id.len(), 32);
    assert_eq!(parse_node_id("xyz"), Err(NodeIdError::NotHex));
    assert_eq!(parse_node_id("abc"), Err(NodeIdError::NotHex));
    assert_eq!(parse_node_id("é"), Err(NodeIdError::NotHex));
    assert_eq!(parse_node_id("abcd"), Err(NodeIdError::WrongLength));
    assert_eq!(NodeIdError::WrongLength.message(), "node id must be 32 bytes (64 hex chars)");
}
