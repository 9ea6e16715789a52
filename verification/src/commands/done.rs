use vstd::prelude::*;
use crate::database::{find_task, upsert, TodoDatabase};
use crate::errors::{CommandError, DomainError};
use crate::time::Timestamp;
use crate::todo::{TaskView, TodoStatus};
use crate::value_objects::TodoId;

verus! {

/// The done command: look the task up, complete it, store the completed
/// value back.  An unknown identifier is a not-found failure; a task
/// already completed is refused and the store is left unchanged.
pub fn execute(db: &mut TodoDatabase, id: u32) -> (r: Result<(), CommandError>)
    ensures
        final(db)@.version == old(db)@.version,
        final(db)@.next_id == old(db)@.next_id,
        find_task(old(db)@.tasks, id) is None ==> r == Err::<(), CommandError>(
            CommandError::NotFound(id),
        ) && final(db)@.tasks == old(db)@.tasks,
        find_task(old(db)@.tasks, id) matches Some(t) ==> ((t.status == TodoStatus::Active
            ==> r is Ok && (exists|ts: Timestamp|
            final(db)@.tasks == upsert(
                old(db)@.tasks,
                (TaskView { status: TodoStatus::Completed { completed_at: ts }, ..t }),
            ))) && ((t.status matches TodoStatus::Completed { .. }) ==> r == Err::<
            (),
            CommandError,
        >(CommandError::Domain(DomainError::AlreadyCompleted)) && final(db)@.tasks == old(
            db,
        )@.tasks)),
{
    let todo_id = TodoId::new(id);
    match db.find_by_id(&todo_id) {
        Some(todo) => {
            let ghost found = todo@;
            match todo.complete() {
                Ok(completed) => {
                    let ghost ts = match completed@.status {
                        TodoStatus::Completed { completed_at } => completed_at,
                        TodoStatus::Active => completed@.created_at,
                    };
                    db.save(completed);
                    proof {
                        assert(completed@ == (TaskView {
                            status: TodoStatus::Completed { completed_at: ts },
                            ..found
                        }));
                    }
                    Ok(())
                },
                Err(e) => Err(CommandError::Domain(e)),
            }
        },
        None => Err(CommandError::NotFound(id)),
    }
}

} // verus!
