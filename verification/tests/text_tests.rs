use proxima::network::NodeId;
use proxima::utils::{format_decimal, StringUtils};

#[test]
fn test_string_utils() {
    let random = StringUtils::random_string(10);
    assert_eq!(random.len(), 10);

    let truncated = StringUtils::truncate_with_ellipsis("Hello, world!", 5);
    assert_eq!(truncated, "He...");
}

#[test]
fn random_strings_are_alphanumeric() {
    let r = StringUtils::random_string(64);
    assert_eq!(r.chars().count(), 64);
    assert!(r.chars().all(|c| c.is_ascii_alphanumeric()));
    assert_eq!(StringUtils::random_string(0), "");
}

#[test]
fn truncation_edge_cases() {
    assert_eq!(StringUtils::truncate_with_ellipsis("Hello", 5), "Hello");
    assert_eq!(StringUtils::truncate_with_ellipsis("Hello", 3), "...");
    assert_eq!(StringUtils::truncate_with_ellipsis("Hello", 2), "..");
    assert_eq!(StringUtils::truncate_with_ellipsis("Hello", 1), ".");
    assert_eq!(StringUtils::truncate_with_ellipsis("Hello", 0), "");
    assert_eq!(StringUtils::truncate_with_ellipsis("", 0), "");
    assert_eq!(StringUtils::truncate_with_ellipsis("héllo wörld", 6), "hé...");
}

#[test]
fn decimal_formatting() {
    assert_eq!(format_decimal(0), "0");
    assert_eq!(format_decimal(5898153), "5898153");
    assert_eq!(format_decimal(-42), "-42");
    assert_eq!(format_decimal(i64::MIN), i64::MIN.to_string());
    assert_eq!(format_decimal(i64::MAX), i64::MAX.to_string());
}

#[test]
fn test_node_id_creation() {
    let node_id = NodeId::new();
    assert!(!node_id.0.is_empty());
    assert_eq!(node_id.0.len(), 36);
    assert_eq!(NodeId::from_string("abc".to_string()).copy().to_string(), "abc");
}
