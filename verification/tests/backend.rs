use yaml_i18n::backend::Backend;
use yaml_i18n::errors::Error;

const DOC: &str = "---\nen:\n  account:\n    code: Code\n    name: Name\n  order:\n    total: Price\n";

#[test]
fn test_from_str() {
    let yaml_string = DOC;

    let mut expected_backend = Backend::new();
    let _ = expected_backend.set("en.account.code".to_string(), "Code".to_string());
    let _ = expected_backend.set("en.account.name".to_string(), "Name".to_string());
    let _ = expected_backend.set("en.order.total".to_string(), "Price".to_string());

    let result = Backend::from_str(yaml_string).unwrap();

    assert_eq!(expected_backend, result);
}

#[test]
fn flatten_correctness_exact_mapping() {
    let b = Backend::from_str(DOC).unwrap();
    assert_eq!(b.get(&"en.account.code".to_string()), Some(&"Code".to_string()));
    assert_eq!(b.get(&"en.account.name".to_string()), Some(&"Name".to_string()));
    assert_eq!(b.get(&"en.order.total".to_string()), Some(&"Price".to_string()));
    assert_eq!(b.len(), 3);
}

#[test]
fn top_level_list_rejected() {
    let err = Backend::from_str("- a\n- b\n").unwrap_err();
    assert!(matches!(err, Error::NotAMapping));
}

#[test]
fn top_level_string_rejected() {
    let err = Backend::from_str("just a string\n").unwrap_err();
    assert!(matches!(err, Error::NotAMapping));
}

#[test]
fn empty_text_rejected() {
    let err = Backend::from_str("").unwrap_err();
    assert!(matches!(err, Error::NotAMapping));
}

#[test]
fn numeric_key_rejected() {
    let err = Backend::from_str("1: x\n").unwrap_err();
    assert!(matches!(err, Error::UnexpectedKey));
}

#[test]
fn boolean_key_rejected() {
    let err = Backend::from_str("true: x\n").unwrap_err();
    assert!(matches!(err, Error::UnexpectedKey));
}

#[test]
fn numeric_leaf_rejected() {
    let err = Backend::from_str("a: 1\n").unwrap_err();
    assert!(matches!(err, Error::UnexpectedValue));
}

#[test]
fn boolean_leaf_rejected() {
    let err = Backend::from_str("a: true\n").unwrap_err();
    assert!(matches!(err, Error::UnexpectedValue));
}

#[test]
fn null_leaf_rejected() {
    let err = Backend::from_str("a: ~\n").unwrap_err();
    assert!(matches!(err, Error::UnexpectedValue));
}

#[test]
fn list_leaf_rejected() {
    let err = Backend::from_str("a:\n  - 1\n  - 2\n").unwrap_err();
    assert!(matches!(err, Error::UnexpectedValue));
}

#[test]
fn get_set_semantics() {
    let mut b = Backend::from_str(DOC).unwrap();
    assert_eq!(b.get(&"en.order.total".to_string()), Some(&"Price".to_string()));
    assert_eq!(b.get(&"missing.key".to_string()), None);
    assert_eq!(
        b.set("en.order.total".to_string(), "NewPrice".to_string()),
        Some("Price".to_string())
    );
    assert_eq!(b.get(&"en.order.total".to_string()), Some(&"NewPrice".to_string()));
    assert_eq!(b.set("brand.new.key".to_string(), "X".to_string()), None);
    assert_eq!(b.get(&"brand.new.key".to_string()), Some(&"X".to_string()));
}

#[test]
fn construction_idempotent() {
    let b1 = Backend::from_str(DOC).unwrap();
    let b2 = Backend::from_str(DOC).unwrap();
    assert_eq!(b1, b2);
}

#[test]
fn malformed_text_parse_error() {
    let err = Backend::from_str("a: [unclosed\n").unwrap_err();
    assert!(matches!(err, Error::Parse(_)));
    assert!(err.message().starts_with("YAML error: "));
}

#[test]
fn nested_violation_propagates() {
    let err = Backend::from_str("en:\n  count: 1\n").unwrap_err();
    assert!(matches!(err, Error::UnexpectedValue));
}

#[test]
fn only_first_document_used() {
    let b = Backend::from_str("---\na: X\n---\nb: Y\n").unwrap();
    assert_eq!(b.get(&"a".to_string()), Some(&"X".to_string()));
    assert_eq!(b.get(&"b".to_string()), None);
}

#[test]
fn dotted_source_key_overwrites() {
    let b = Backend::from_str("a:\n  b: first\na.b: second\n").unwrap();
    assert_eq!(b.get(&"a.b".to_string()), Some(&"second".to_string()));
    assert_eq!(b.len(), 1);
}

#[test]
fn empty_key_drops_separator() {
    let b = Backend::from_str("\"\":\n  a: X\n").unwrap();
    assert_eq!(b.get(&"a".to_string()), Some(&"X".to_string()));
}

#[test]
fn deep_nesting_flattens() {
    let b = Backend::from_str("a:\n  b:\n    c:\n      d: deep\n").unwrap();
    assert_eq!(b.get(&"a.b.c.d".to_string()), Some(&"deep".to_string()));
    assert_eq!(b.len(), 1);
}

#[test]
fn not_a_mapping_message() {
    let err = Backend::from_str("- a\n").unwrap_err();
    assert_eq!(err.message(), "Other error: Could not parse YAML document as Hash");
}

#[test]
fn empty_store_get_set() {
    let mut b = Backend::new();
    assert_eq!(b.len(), 0);
    assert_eq!(b.get(&"k".to_string()), None);
    assert_eq!(b.set("k".to_string(), "v".to_string()), None);
    assert_eq!(b.set("k".to_string(), "w".to_string()), Some("v".to_string()));
    assert_eq!(b.len(), 1);
    assert_eq!(b.get(&"k".to_string()), Some(&"w".to_string()));
}
