use nfc_scanner::database::db::should_add_test_data;
use nfc_scanner::database::errors::{one_row_affected, DatabaseError};
use nfc_scanner::util::{contains_str, decimal_string, same_text};

#[test]
fn test_data_only_for_dev_or_test_in_memory() {
    assert!(should_add_test_data("dev", "sqlite::memory:"));
    assert!(should_add_test_data("test", "sqlite://:memory:?cache=shared"));
    assert!(!should_add_test_data("prod", "sqlite::memory:"));
    assert!(!should_add_test_data("dev", "sqlite://data.db"));
    assert!(!should_add_test_data("development", "sqlite::memory:"));
    assert!(!should_add_test_data("", ""));
}

#[test]
fn one_changed_row_is_success() {
    assert!(one_row_affected(1).is_ok());
    assert!(matches!(one_row_affected(0), Err(DatabaseError::NotFound)));
    assert!(matches!(one_row_affected(2), Err(DatabaseError::NotFound)));
    assert!(matches!(one_row_affected(u64::MAX), Err(DatabaseError::NotFound)));
}

#[test]
fn decimal_text_of_numbers() {
    assert_eq!(decimal_string(0), "0");
    assert_eq!(decimal_string(9), "9");
    assert_eq!(decimal_string(10), "10");
    assert_eq!(decimal_string(305), "305");
    assert_eq!(decimal_string(u32::MAX), u32::MAX.to_string());
}

#[test]
fn text_search_and_comparison() {
    assert!(contains_str("abc", ""));
    assert!(contains_str("abc", "abc"));
    assert!(contains_str("xxabcxx", "bc"));
    assert!(!contains_str("ab", "abc"));
    assert!(!contains_str("abd", "abc"));
    assert!(contains_str("ääb", "äb"));
    assert!(same_text("dev", "dev"));
    assert!(!same_text("dev", "de"));
    assert!(!same_text("dev", "deV"));
    assert!(same_text("", ""));
}
