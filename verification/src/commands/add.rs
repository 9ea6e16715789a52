use vstd::prelude::*;
use crate::database::{upsert, TodoDatabase};
use crate::errors::{DomainError, ValidationError};
use crate::time::Timestamp;
use crate::todo::{TaskView, Todo, TodoStatus};
use crate::value_objects::is_blank;

verus! {

/// The add command: allocate the next identifier, build an Active task
/// with the title, and store it.  The identifier is allocated before the
/// title is validated, deliberately: a rejected title still burns one
/// identifier, and the caller owes persistence of the moved counter even
/// then.
pub fn execute(db: &mut TodoDatabase, title: String) -> (r: Result<u32, DomainError>)
    requires
        old(db)@.next_id < u32::MAX,
    ensures
        r is Ok <==> !is_blank(title@),
        final(db)@.version == old(db)@.version,
        final(db)@.next_id == old(db)@.next_id + 1,
        r matches Ok(id) ==> id == old(db)@.next_id && (exists|ts: Timestamp|
            final(db)@.tasks == upsert(
                old(db)@.tasks,
                (TaskView {
                    id: old(db)@.next_id,
                    title: title@,
                    status: TodoStatus::Active,
                    created_at: ts,
                }),
            )),
        r matches Err(e) ==> e == DomainError::ValidationError(ValidationError::EmptyTitle)
            && final(db)@.tasks == old(db)@.tasks,
{
    let id = db.next_id();
    match Todo::new(id, title) {
        Ok(todo) => {
            let ghost ts = todo@.created_at;
            db.save(todo);
            proof {
                assert(db@.tasks == upsert(
                    old(db)@.tasks,
                    (TaskView {
                        id: old(db)@.next_id,
                        title: title@,
                        status: TodoStatus::Active,
                        created_at: ts,
                    }),
                ));
            }
            Ok(id)
        },
        Err(e) => Err(DomainError::ValidationError(e)),
    }
}

} // verus!
