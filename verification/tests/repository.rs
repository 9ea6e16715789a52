use rust_todo_cli::repository::{MemTodoRepository, TodoRepository};
use rust_todo_cli::todo::Todo;
use rust_todo_cli::value_objects::TodoId;

#[test]
fn test_mem_repository_same_contract() {
    let mut repo = MemTodoRepository::new();
    assert_eq!(repo.find_all().unwrap().len(), 0);
    assert_eq!(repo.next_id().unwrap(), 1);

    let todo = Todo::new(1, "via the trait".to_string()).unwrap();
    repo.save(todo).unwrap();
    assert!(repo.find_by_id(&TodoId::new(1)).unwrap().is_some());
    assert!(repo.find_by_id(&TodoId::new(999)).unwrap().is_none());

    repo.save(Todo::new(1, "replaced".to_string()).unwrap()).unwrap();
    let all = repo.find_all().unwrap();
    assert_eq!(all.len(), 1);
    assert_eq!(all[0].title.as_str(), "replaced");

    repo.delete(&TodoId::new(5)).unwrap();
    assert_eq!(repo.find_all().unwrap().len(), 1);
    repo.delete(&TodoId::new(1)).unwrap();
    assert_eq!(repo.find_all().unwrap().len(), 0);

    assert_eq!(repo.next_id().unwrap(), 2);
}
