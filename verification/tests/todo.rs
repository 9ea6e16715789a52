use rust_todo_cli::errors::{DomainError, ValidationError};
use rust_todo_cli::time::Timestamp;
use rust_todo_cli::todo::{Todo, TodoStatus};

fn now_ts() -> Timestamp {
    let dt = chrono::Local::now();
    Timestamp::new(
        dt.timestamp(),
        dt.timestamp_subsec_nanos(),
        dt.offset().local_minus_utc(),
    )
}

#[test]
fn test_todo_new_creates_active_todo() {
    let todo = Todo::new(1, "新しいタスク".to_string()).unwrap();

    assert_eq!(todo.id.value(), 1);
    assert_eq!(todo.title.as_str(), "新しいタスク");
    assert!(matches!(todo.status, TodoStatus::Active));
}

#[test]
fn test_todo_new_rejects_empty_title() {
    let result = Todo::new(1, "".to_string());

    assert!(result.is_err());
    assert!(matches!(result.unwrap_err(), ValidationError::EmptyTitle));
}

#[test]
fn test_todo_complete_transitions_from_active() {
    let todo = Todo::new(1, "タスク".to_string()).unwrap();
    let before = now_ts();

    let completed = todo.complete().unwrap();

    match completed.status {
        TodoStatus::Completed { completed_at } => {
            assert!(before.le(&completed_at));
            assert!(completed_at.le(&now_ts()));
        }
        _ => panic!("Expected Completed status"),
    }
}

#[test]
fn test_todo_complete_fails_when_already_completed() {
    let todo = Todo::new(1, "タスク".to_string()).unwrap();
    let completed = todo.complete().unwrap();

    let result = completed.complete();

    assert!(result.is_err());
    assert!(matches!(result.unwrap_err(), DomainError::AlreadyCompleted));
}

#[test]
fn test_todo_preserves_other_fields_on_complete() {
    let todo = Todo::new(42, "重要なタスク".to_string()).unwrap();
    let created_at = todo.created_at;

    let completed = todo.complete().unwrap();

    assert_eq!(completed.id.value(), 42);
    assert_eq!(completed.title.as_str(), "重要なタスク");
    assert_eq!(completed.created_at, created_at);
}

#[test]
fn test_todo_create_uses_given_instant() {
    let ts = Timestamp::new(100, 5, 3600);
    let todo = Todo::create(7, "fixed".to_string(), ts).unwrap();
    assert_eq!(todo.created_at, ts);
    assert!(matches!(todo.status, TodoStatus::Active));
}

#[test]
fn test_todo_complete_at_stamps_given_instant() {
    let created = Timestamp::new(100, 5, 3600);
    let done_at = Timestamp::new(200, 6, 3600);
    let todo = Todo::create(7, "fixed".to_string(), created).unwrap();
    let completed = todo.complete_at(done_at).unwrap();
    match completed.status {
        TodoStatus::Completed { completed_at } => assert_eq!(completed_at, done_at),
        _ => panic!("Expected Completed status"),
    }
    assert_eq!(completed.created_at, created);
}

#[test]
fn test_timestamp_ordering() {
    let a = Timestamp::new(100, 5, 0);
    let b = Timestamp::new(100, 6, -3600);
    let c = Timestamp::new(101, 0, 7200);
    assert!(a.le(&a));
    assert!(a.le(&b));
    assert!(b.le(&c));
    assert!(!c.le(&b));
    assert!(!b.le(&a));
}
