use vstd::prelude::*;
use crate::database::{
    find_task, initial_db, remove_task, tasks_view, upsert, DbView, TodoDatabase,
};
use crate::todo::Todo;
use crate::value_objects::TodoId;

verus! {

/// The persistence contract: what every store of tasks promises, stated
/// over the mathematical view of its durable state.  The file-backed
/// store and the in-memory test double both answer to this interface.
pub trait TodoRepository {
    type Error;

    /// The stored state the contract speaks of.
    spec fn db_view(&self) -> DbView;

    /// Every stored task, in the store's order.
    fn find_all(&self) -> (r: Result<Vec<Todo>, Self::Error>)
        ensures
            r matches Ok(ts) ==> tasks_view(ts@) == self.db_view().tasks,
    ;

    /// The first stored task with the identifier, if any.
    fn find_by_id(&self, id: &TodoId) -> (r: Result<Option<Todo>, Self::Error>)
        ensures
            r matches Ok(found) ==> match found {
                Some(t) => find_task(self.db_view().tasks, id@) == Some(t@),
                None => find_task(self.db_view().tasks, id@) is None,
            },
    ;

    /// Upsert by identifier: replace in place or append, never reorder.
    fn save(&mut self, todo: Todo) -> (r: Result<(), Self::Error>)
        ensures
            r is Ok ==> final(self).db_view().version == old(self).db_view().version
                && final(self).db_view().next_id == old(self).db_view().next_id
                && final(self).db_view().tasks == upsert(old(self).db_view().tasks, todo@),
    ;

    /// Remove the identifier's records; absence is not an error.
    fn delete(&mut self, id: &TodoId) -> (r: Result<(), Self::Error>)
        ensures
            r is Ok ==> final(self).db_view().version == old(self).db_view().version
                && final(self).db_view().next_id == old(self).db_view().next_id
                && final(self).db_view().tasks == remove_task(old(self).db_view().tasks, id@),
    ;

    /// A fresh identifier: two sequential calls never return the same
    /// value, and what comes out always grows.
    fn next_id(&mut self) -> (r: Result<u32, Self::Error>)
        requires
            old(self).db_view().next_id < u32::MAX,
        ensures
            r matches Ok(id) ==> id == old(self).db_view().next_id && final(self).db_view().next_id
                == old(self).db_view().next_id + 1 && final(self).db_view().version == old(
                self,
            ).db_view().version && final(self).db_view().tasks == old(self).db_view().tasks,
    ;
}

/// The error of the in-memory store; no operation ever produces one.
#[derive(Debug, Clone)]
pub struct MemError {
    pub detail: String,
}

/// The in-memory test double: the whole database held as a value, the
/// identical contract as the file-backed store.
#[derive(Debug)]
pub struct MemTodoRepository {
    db: TodoDatabase,
}

impl MemTodoRepository {
    /// A fresh, empty in-memory store.
    pub fn new() -> (r: Self)
        ensures
            r.db_view() == initial_db(),
    {
        MemTodoRepository { db: TodoDatabase::empty() }
    }
}

impl TodoRepository for MemTodoRepository {
    type Error = MemError;

    closed spec fn db_view(&self) -> DbView {
        self.db@
    }

    fn find_all(&self) -> (r: Result<Vec<Todo>, MemError>)
        ensures
            r is Ok,
    {
        Ok(self.db.find_all())
    }

    fn find_by_id(&self, id: &TodoId) -> (r: Result<Option<Todo>, MemError>)
        ensures
            r is Ok,
    {
        Ok(self.db.find_by_id(id))
    }

    fn save(&mut self, todo: Todo) -> (r: Result<(), MemError>)
        ensures
            r is Ok,
    {
        self.db.save(todo);
        Ok(())
    }

    fn delete(&mut self, id: &TodoId) -> (r: Result<(), MemError>)
        ensures
            r is Ok,
    {
        self.db.delete(id);
        Ok(())
    }

    fn next_id(&mut self) -> (r: Result<u32, MemError>)
        ensures
            r is Ok,
    {
        Ok(self.db.next_id())
    }
}

} // verus!
