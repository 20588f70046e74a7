use breach_protocol::interner::Interner;

#[test]
fn get_after_insert_dereferences_to_value() {
    let mut interner = Interner::new();
    interner.insert("2B".to_string());
    interner.insert("1A".to_string());
    interner.insert("3C".to_string());
    let token = interner.get("1A").unwrap();
    assert_eq!(interner.value(token).as_str(), "1A");
    let token = interner.get("3C").unwrap();
    assert_eq!(interner.value(token).as_str(), "3C");
}

#[test]
fn get_absent_value_returns_nothing() {
    let mut interner = Interner::new();
    interner.insert("1A".to_string());
    assert!(interner.get("2B").is_none());
    assert!(Interner::new().get("1A").is_none());
}

#[test]
fn store_stays_sorted_under_inserts() {
    // handles index a sorted store, so later values get higher indices
    // regardless of insertion order
    let mut interner = Interner::new();
    interner.insert("3C".to_string());
    interner.insert("1A".to_string());
    interner.insert("2B".to_string());
    let a = interner.get("1A").unwrap();
    let b = interner.get("2B").unwrap();
    let c = interner.get("3C").unwrap();
    assert!(a.idx < b.idx);
    assert!(b.idx < c.idx);
    assert_eq!(a.idx, 0);
    assert_eq!(c.idx, 2);
}

#[test]
fn inserting_same_value_twice_yields_same_token() {
    let mut interner = Interner::new();
    let first = interner.insert("1A".to_string());
    interner.insert("2B".to_string());
    let again = interner.insert("1A".to_string());
    assert_eq!(first, again);
}

#[test]
fn extend_matches_individual_inserts() {
    let batch = ["2B", "1A", "3C", "1A", "0X"];

    let mut bulk = Interner::new();
    bulk.insert("5E".to_string());
    bulk.insert("1A".to_string());
    bulk.extend(batch.iter().map(|v| v.to_string()).collect());

    let mut one_by_one = Interner::new();
    one_by_one.insert("5E".to_string());
    one_by_one.insert("1A".to_string());
    for value in batch.iter() {
        one_by_one.insert(value.to_string());
    }

    assert_eq!(bulk, one_by_one);
}

#[test]
fn extend_deduplicates() {
    let mut interner = Interner::new();
    interner.extend(vec!["1A".to_string(), "1A".to_string(), "1A".to_string()]);
    let token = interner.get("1A").unwrap();
    assert_eq!(token.idx, 0);
    let first = interner.insert("1A".to_string());
    assert_eq!(first, token);
}

#[test]
fn extend_empty_batch_changes_nothing() {
    let mut interner = Interner::new();
    interner.insert("1A".to_string());
    let before = interner.clone();
    interner.extend(Vec::new());
    assert_eq!(interner, before);
}
