use rust_todo_cli::codec::render_u32;
use rust_todo_cli::commands::{add, delete, done, list};
use rust_todo_cli::database::TodoDatabase;
use rust_todo_cli::errors::{CommandError, DomainError, ValidationError};
use rust_todo_cli::todo::TodoStatus;
use rust_todo_cli::value_objects::TodoId;

#[test]
fn test_full_scenario() {
    let mut db = TodoDatabase::empty();

    let id1 = add::execute(&mut db, "Buy milk".to_string()).unwrap();
    assert_eq!(id1, 1);
    assert!(matches!(
        db.find_by_id(&TodoId::new(1)).unwrap().status,
        TodoStatus::Active
    ));

    let id2 = add::execute(&mut db, "Pay bills".to_string()).unwrap();
    assert_eq!(id2, 2);

    done::execute(&mut db, 1).unwrap();
    assert!(matches!(
        db.find_by_id(&TodoId::new(1)).unwrap().status,
        TodoStatus::Completed { .. }
    ));

    let report = list::execute(&db);
    assert_eq!(report.active.len(), 1);
    assert_eq!(report.active[0].title.as_str(), "Pay bills");
    assert_eq!(report.completed.len(), 1);
    assert_eq!(report.completed[0].title.as_str(), "Buy milk");

    delete::execute(&mut db, 2);
    let all = db.find_all();
    assert_eq!(all.len(), 1);
    assert_eq!(all[0].id.value(), 1);
}

#[test]
fn test_add_empty_title_fails_but_burns_id() {
    let mut db = TodoDatabase::empty();

    let r = add::execute(&mut db, "".to_string());
    assert!(matches!(
        r,
        Err(DomainError::ValidationError(ValidationError::EmptyTitle))
    ));
    assert_eq!(db.find_all().len(), 0);
    // The identifier is allocated before validation, so the counter moved.
    assert_eq!(db.next_id, 2);
}

#[test]
fn test_done_unknown_id_is_not_found() {
    let mut db = TodoDatabase::empty();
    let r = done::execute(&mut db, 9);
    match r {
        Err(CommandError::NotFound(id)) => assert_eq!(id, 9),
        _ => panic!("expected a not-found failure"),
    }
    assert_eq!(db.find_all().len(), 0);
}

#[test]
fn test_done_twice_is_already_completed() {
    let mut db = TodoDatabase::empty();
    add::execute(&mut db, "once".to_string()).unwrap();
    done::execute(&mut db, 1).unwrap();
    let r = done::execute(&mut db, 1);
    assert!(matches!(
        r,
        Err(CommandError::Domain(DomainError::AlreadyCompleted))
    ));
}

#[test]
fn test_delete_missing_id_is_noop() {
    let mut db = TodoDatabase::empty();
    add::execute(&mut db, "stays".to_string()).unwrap();
    delete::execute(&mut db, 42);
    let all = db.find_all();
    assert_eq!(all.len(), 1);
    assert_eq!(all[0].title.as_str(), "stays");
    assert_eq!(db.next_id, 2);
}

#[test]
fn test_save_replaces_in_place_keeps_order() {
    let mut db = TodoDatabase::empty();
    for i in 1..=3 {
        add::execute(&mut db, format!("task {}", i)).unwrap();
    }
    let mut replacement = db.find_by_id(&TodoId::new(2)).unwrap();
    replacement = replacement.complete().unwrap();
    db.save(replacement);
    let all = db.find_all();
    assert_eq!(all.len(), 3);
    assert_eq!(all[0].id.value(), 1);
    assert_eq!(all[1].id.value(), 2);
    assert!(matches!(all[1].status, TodoStatus::Completed { .. }));
    assert_eq!(all[2].id.value(), 3);
    assert!(matches!(all[0].status, TodoStatus::Active));
    assert!(matches!(all[2].status, TodoStatus::Active));
}

#[test]
fn test_next_id_strictly_increases() {
    let mut db = TodoDatabase::empty();
    let mut last: u32 = 0;
    for _ in 0..5 {
        let id = db.next_id();
        assert!(id > last);
        last = id;
    }
    assert_eq!(last, 5);
}

#[test]
fn test_error_messages() {
    assert_eq!(ValidationError::EmptyTitle.message(), "The title is empty");
    assert_eq!(
        DomainError::ValidationError(ValidationError::EmptyTitle).message(),
        "Validation error: The title is empty"
    );
    assert_eq!(DomainError::AlreadyCompleted.message(), "Already completed");
    assert_eq!(
        CommandError::NotFound(17).message(),
        "No task found for ID 17"
    );
}

#[test]
fn test_render_u32() {
    assert_eq!(render_u32(0), "0");
    assert_eq!(render_u32(7), "7");
    assert_eq!(render_u32(4294967295), "4294967295");
}
