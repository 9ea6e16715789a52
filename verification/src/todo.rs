use vstd::prelude::*;
use crate::errors::{DomainError, ValidationError};
use crate::time::{now_timestamp, Timestamp};
use crate::value_objects::{is_blank, NonEmptyString, TodoId};

verus! {

/// Life-cycle state of a task: still to do, or completed at a recorded
/// instant.  The only transition is Active to Completed.
#[derive(Debug, Clone, Copy, PartialEq, Eq, Structural)]
pub enum TodoStatus {
    Active,
    Completed { completed_at: Timestamp },
}

/// Mathematical image of a [`Todo`].
pub ghost struct TaskView {
    pub id: u32,
    pub title: Seq<char>,
    pub status: TodoStatus,
    pub created_at: Timestamp,
}

/// The invariant of a task: its title trims to something non-empty.
pub open spec fn task_wf(t: TaskView) -> bool {
    !is_blank(t.title)
}

/// A task: identifier, title, status and creation instant.  `id` and
/// `created_at` never change after construction; `status` only moves
/// Active to Completed, by way of a new value.
#[derive(Debug)]
pub struct Todo {
    pub id: TodoId,
    pub title: NonEmptyString,
    pub status: TodoStatus,
    pub created_at: Timestamp,
}

impl View for Todo {
    type V = TaskView;

    open spec fn view(&self) -> TaskView {
        TaskView {
            id: self.id@,
            title: self.title@,
            status: self.status,
            created_at: self.created_at,
        }
    }
}

impl Clone for Todo {
    fn clone(&self) -> (r: Self)
        ensures
            r@ == self@,
    {
        Todo {
            id: self.id,
            title: self.title.clone(),
            status: self.status,
            created_at: self.created_at,
        }
    }
}

impl Todo {
    pub open spec fn wf(&self) -> bool {
        task_wf(self@)
    }

    /// Builds a task from an allocated id, a candidate title and the
    /// creation instant: accepts exactly the titles whose trimmed form is
    /// non-empty, stores the title unmodified, and forces the initial
    /// status to Active.
    pub fn create(id: u32, title: String, created_at: Timestamp) -> (r: Result<Todo, ValidationError>)
        ensures
            r is Ok <==> !is_blank(title@),
            r matches Ok(t) ==> t@ == (TaskView {
                id,
                title: title@,
                status: TodoStatus::Active,
                created_at,
            }),
            r matches Err(e) ==> e == ValidationError::EmptyTitle,
    {
        match NonEmptyString::new(title) {
            Ok(t) => Ok(
                Todo { id: TodoId::new(id), title: t, status: TodoStatus::Active, created_at },
            ),
            Err(e) => Err(e),
        }
    }

    /// [`Todo::create`] stamped with the current local time.
    pub fn new(id: u32, title: String) -> (r: Result<Todo, ValidationError>)
        ensures
            r is Ok <==> !is_blank(title@),
            r matches Ok(t) ==> t@.id == id && t@.title == title@ && t@.status
                == TodoStatus::Active,
            r matches Err(e) ==> e == ValidationError::EmptyTitle,
    {
        let now = now_timestamp();
        Todo::create(id, title, now)
    }

    /// The Active to Completed transition, with the completion instant
    /// given: succeeds exactly on an Active task, and changes nothing but
    /// the status.
    pub fn complete_at(self, completed_at: Timestamp) -> (r: Result<Todo, DomainError>)
        ensures
            r is Ok <==> self@.status == TodoStatus::Active,
            r matches Ok(t) ==> t@ == (TaskView { status: TodoStatus::Completed { completed_at }, ..self@ }),
            r matches Err(e) ==> e == DomainError::AlreadyCompleted && (self@.status matches TodoStatus::Completed { .. }),
    {
        match self.status {
            TodoStatus::Active => Ok(
                Todo { status: TodoStatus::Completed { completed_at }, ..self },
            ),
            TodoStatus::Completed { .. } => Err(DomainError::AlreadyCompleted),
        }
    }

    /// [`Todo::complete_at`] stamped with the current local time.
    pub fn complete(self) -> (r: Result<Todo, DomainError>)
        ensures
            r is Ok <==> self@.status == TodoStatus::Active,
            r matches Ok(t) ==> t@.id == self@.id && t@.title == self@.title && t@.created_at
                == self@.created_at && (t@.status matches TodoStatus::Completed { .. }),
            r matches Err(e) ==> e == DomainError::AlreadyCompleted && (self@.status matches TodoStatus::Completed { .. }),
    {
        let now = now_timestamp();
        self.complete_at(now)
    }
}

} // verus!
