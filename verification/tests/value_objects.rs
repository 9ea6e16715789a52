use rust_todo_cli::errors::ValidationError;
use rust_todo_cli::value_objects::{NonEmptyString, TodoId};

#[test]
fn test_non_empty_string_accepts_valid_string() {
    let result = NonEmptyString::new("有効なタイトル".to_string());
    assert!(result.is_ok());
    assert_eq!(result.unwrap().as_str(), "有効なタイトル");
}

#[test]
fn test_non_empty_string_rejects_empty_string() {
    let result = NonEmptyString::new("".to_string());
    assert!(result.is_err());
    assert!(matches!(result.unwrap_err(), ValidationError::EmptyTitle));
}

#[test]
fn test_non_empty_string_rejects_whitespace_only() {
    let result = NonEmptyString::new("   ".to_string());
    assert!(result.is_err());
    assert!(matches!(result.unwrap_err(), ValidationError::EmptyTitle));
}

#[test]
fn test_todo_id_creation_and_value() {
    let id = TodoId::new(42);
    assert_eq!(id.value(), 42);
}

#[test]
fn test_non_empty_string_keeps_surrounding_whitespace() {
    let result = NonEmptyString::new("  padded  ".to_string());
    assert_eq!(result.unwrap().as_str(), "  padded  ");
}

#[test]
fn test_non_empty_string_rejects_unicode_whitespace() {
    let result = NonEmptyString::new("\u{3000}\t\n\u{00A0}".to_string());
    assert!(matches!(result.unwrap_err(), ValidationError::EmptyTitle));
}
