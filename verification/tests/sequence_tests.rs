use breach_protocol::interner::Interner;
use breach_protocol::sequence::{make_interned, Error, Sequence};

fn make_interner() -> Interner {
    let mut interner = Interner::new();
    interner.insert("1A".to_string());
    interner.insert("2B".to_string());
    interner.insert("3C".to_string());
    interner
}

fn words(s: &str) -> Vec<String> {
    s.split_ascii_whitespace().map(|w| w.to_string()).collect()
}

#[test]
fn inner_example_bare() {
    let interner = &make_interner();
    let sequence = Sequence::new(&interner, &words("1A 2B 1A 3C")).unwrap();
    let items = make_interned(&interner, &words("1A 2B 3C 1A 2B 1A 3C")).unwrap();
    assert!(sequence.is_matched(&items));
}

#[test]
fn inner_example_incomplete() {
    let interner = &make_interner();
    let sequence = Sequence::new(&interner, &words("1A 2B 1A 3C")).unwrap();
    let items = make_interned(&interner, &words("1A 2B 3C 1A 2B 1A")).unwrap();
    assert!(!sequence.is_matched(&items));
}

#[test]
fn inner_example_too_long() {
    let interner = &make_interner();
    let sequence = Sequence::new(&interner, &words("1A 2B 1A 3C")).unwrap();
    let items = make_interned(&interner, &words("1A 2B 3C 1A 2B 1A 3C 2B 3C 1A")).unwrap();
    assert!(sequence.is_matched(&items));
}

#[test]
fn match_at_exact_length() {
    let interner = &make_interner();
    let sequence = Sequence::new(&interner, &words("1A 2B")).unwrap();
    let items = make_interned(&interner, &words("1A 2B")).unwrap();
    assert!(sequence.is_matched(&items));
}

#[test]
fn match_respects_order() {
    let interner = &make_interner();
    let sequence = Sequence::new(&interner, &words("1A 2B 3C")).unwrap();
    let items = make_interned(&interner, &words("3C 2B 1A")).unwrap();
    assert!(!sequence.is_matched(&items));
}

#[test]
fn empty_pattern_never_matches() {
    let interner = &make_interner();
    let sequence = Sequence::new(&interner, &words("")).unwrap();
    let items = make_interned(&interner, &words("1A 2B 3C")).unwrap();
    assert!(!sequence.is_matched(&items));
}

#[test]
fn empty_stream_never_matches() {
    let interner = &make_interner();
    let sequence = Sequence::new(&interner, &words("1A")).unwrap();
    let items: Vec<breach_protocol::Interned> = Vec::new();
    assert!(!sequence.is_matched(&items));
}

#[test]
fn unknown_value_fails_lookup() {
    let interner = &make_interner();
    let result = Sequence::new(&interner, &words("1A 9Z"));
    match result {
        Err(Error::NotFound(value)) => assert_eq!(value, "9Z"),
        _ => panic!("expected a lookup failure"),
    }
}
