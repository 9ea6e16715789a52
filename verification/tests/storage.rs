use rust_todo_cli::codec::{encode_database, parse_database, ParseError};
use rust_todo_cli::database::TodoDatabase;
use rust_todo_cli::storage::{load_database, JsonRepositoryError, JsonTodoRepository};
use rust_todo_cli::time::Timestamp;
use rust_todo_cli::todo::{Todo, TodoStatus};
use rust_todo_cli::value_objects::TodoId;

fn assert_same_task(a: &Todo, b: &Todo) {
    assert_eq!(a.id.value(), b.id.value());
    assert_eq!(a.title.as_str(), b.title.as_str());
    assert_eq!(a.created_at, b.created_at);
    match (&a.status, &b.status) {
        (TodoStatus::Active, TodoStatus::Active) => {}
        (
            TodoStatus::Completed { completed_at: x },
            TodoStatus::Completed { completed_at: y },
        ) => assert_eq!(x, y),
        _ => panic!("statuses differ"),
    }
}

#[test]
fn test_empty_repository() {
    let mut db = load_database(None).unwrap();

    assert_eq!(db.find_all().len(), 0);
    assert_eq!(db.next_id(), 1);
}

#[test]
fn test_save_and_find() {
    let mut db = load_database(None).unwrap();

    let todo = Todo::new(1, "テストタスク".to_string()).unwrap();
    db.save(todo.clone());

    let found = db.find_by_id(&TodoId::new(1));
    assert!(found.is_some());
    assert_same_task(&found.unwrap(), &todo);

    assert!(db.find_by_id(&TodoId::new(999)).is_none());
}

#[test]
fn test_update_existing() {
    let mut db = load_database(None).unwrap();

    db.save(Todo::new(1, "初期".to_string()).unwrap());
    db.save(Todo::new(1, "更新後".to_string()).unwrap());

    assert_eq!(db.find_all().len(), 1);
    assert_eq!(db.find_all()[0].title.as_str(), "更新後");
}

#[test]
fn test_delete() {
    let mut db = load_database(None).unwrap();

    for i in 1..=3 {
        db.save(Todo::new(i, format!("タスク{}", i)).unwrap());
    }

    db.delete(&TodoId::new(2));

    let todos = db.find_all();
    assert_eq!(todos.len(), 2);
    assert!(!todos.iter().any(|t| t.id.value() == 2));
}

#[test]
fn test_persistence() {
    let content;
    {
        let mut db = load_database(None).unwrap();
        db.save(Todo::new(1, "永続化テスト".to_string()).unwrap());
        content = encode_database(&db);
    }
    {
        let db = load_database(Some(content.as_str())).unwrap();
        assert_eq!(db.find_all().len(), 1);
    }
}

#[test]
fn test_next_id_persistence() {
    let (id1, content) = {
        let mut db = load_database(None).unwrap();
        let id = db.next_id();
        (id, encode_database(&db))
    };

    let id2 = {
        let mut db = load_database(Some(content.as_str())).unwrap();
        db.next_id()
    };

    assert_eq!(id1, 1);
    assert_eq!(id2, 2);
}

#[test]
fn test_encode_exact_text() {
    let mut db = TodoDatabase::empty();
    db.save(Todo::create(1, "Buy milk".to_string(), Timestamp::new(100, 5, 3600)).unwrap());
    let s = encode_database(&db);
    assert_eq!(
        s,
        "{\n  \"version\": \"1.0\",\n  \"next_id\": 1,\n  \"todos\": [\n    {\"id\": 1, \"title\": \"Buy milk\", \"created_at\": [100, 5, 3600], \"completed_at\": null}\n  ]\n}"
    );
}

#[test]
fn test_encode_exact_text_empty() {
    let db = TodoDatabase::empty();
    assert_eq!(
        encode_database(&db),
        "{\n  \"version\": \"1.0\",\n  \"next_id\": 1,\n  \"todos\": []\n}"
    );
}

#[test]
fn test_round_trip_with_escapes_and_negative_times() {
    let mut db = TodoDatabase::empty();
    let t1 = Todo::create(
        1,
        "say \"hi\" \\ done".to_string(),
        Timestamp::new(-62135596800, 0, -43200),
    )
    .unwrap();
    let t2 = Todo::create(2, "後で\n片付ける".to_string(), Timestamp::new(100, 999999999, 0))
        .unwrap()
        .complete_at(Timestamp::new(101, 0, 0))
        .unwrap();
    db.save(t1.clone());
    db.save(t2.clone());
    let _ = db.next_id();

    let text = encode_database(&db);
    let back = parse_database(text.as_str()).unwrap();

    assert_eq!(back.version.as_str(), "1.0");
    assert_eq!(back.next_id, db.next_id);
    let all = back.find_all();
    assert_eq!(all.len(), 2);
    assert_same_task(&all[0], &t1);
    assert_same_task(&all[1], &t2);
}

#[test]
fn test_parse_rejects_garbage() {
    assert!(matches!(parse_database("not a database"), Err(ParseError::Malformed)));
    assert!(matches!(parse_database(""), Err(ParseError::Malformed)));
}

#[test]
fn test_parse_rejects_blank_title() {
    let text = "{\n  \"version\": \"1.0\",\n  \"next_id\": 2,\n  \"todos\": [\n    {\"id\": 1, \"title\": \"   \", \"created_at\": [100, 5, 0], \"completed_at\": null}\n  ]\n}";
    assert!(parse_database(text).is_err());
}

#[test]
fn test_parse_rejects_non_canonical_number() {
    let text = "{\n  \"version\": \"1.0\",\n  \"next_id\": 01,\n  \"todos\": []\n}";
    assert!(parse_database(text).is_err());
}

#[test]
fn test_parse_accepts_canonical_text() {
    let text = "{\n  \"version\": \"1.0\",\n  \"next_id\": 3,\n  \"todos\": [\n    {\"id\": 2, \"title\": \"x\", \"created_at\": [-5, 1, 0], \"completed_at\": [7, 2, 60]}\n  ]\n}";
    let db = parse_database(text).unwrap();
    assert_eq!(db.next_id, 3);
    let all = db.find_all();
    assert_eq!(all.len(), 1);
    assert_eq!(all[0].id.value(), 2);
    assert_eq!(all[0].created_at, Timestamp::new(-5, 1, 0));
    match all[0].status {
        TodoStatus::Completed { completed_at } => {
            assert_eq!(completed_at, Timestamp::new(7, 2, 60))
        }
        _ => panic!("expected completed"),
    }
    assert_eq!(encode_database(&db).as_str(), text);
}

#[test]
fn test_load_missing_file_is_empty_store() {
    let db = load_database(None).unwrap();
    assert_eq!(db.version.as_str(), "1.0");
    assert_eq!(db.next_id, 1);
    assert_eq!(db.find_all().len(), 0);
}

#[test]
fn test_load_malformed_is_serde_error() {
    let r = load_database(Some("{}"));
    match r {
        Err(JsonRepositoryError::SerdeError(_)) => {}
        _ => panic!("expected a deserialization error"),
    }
}

#[test]
fn test_repository_remembers_path() {
    let repo = JsonTodoRepository::new("/home/user/.todo.json".to_string());
    assert_eq!(repo.file_path().as_str(), "/home/user/.todo.json");
}
