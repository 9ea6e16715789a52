use vstd::prelude::*;
use crate::database::{remove_task, TodoDatabase};
use crate::value_objects::TodoId;

verus! {

/// The delete command: removes the task with the identifier; deleting an
/// identifier that is not stored succeeds and changes nothing.
pub fn execute(db: &mut TodoDatabase, id: u32)
    ensures
        final(db)@.version == old(db)@.version,
        final(db)@.next_id == old(db)@.next_id,
        final(db)@.tasks == remove_task(old(db)@.tasks, id),
{
    let todo_id = TodoId::new(id);
    db.delete(&todo_id);
}

} // verus!
