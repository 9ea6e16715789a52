use vstd::prelude::*;
use crate::database::{tasks_view, TodoDatabase};
use crate::todo::{TaskView, Todo, TodoStatus};

verus! {

/// Whether a task is still to do.
pub open spec fn is_active(t: TaskView) -> bool {
    t.status == TodoStatus::Active
}

/// The stored tasks that are still to do, in file order.
pub open spec fn active_tasks(tasks: Seq<TaskView>) -> Seq<TaskView> {
    tasks.filter(|t: TaskView| is_active(t))
}

/// The stored tasks already completed, in file order.
pub open spec fn completed_tasks(tasks: Seq<TaskView>) -> Seq<TaskView> {
    tasks.filter(|t: TaskView| !is_active(t))
}

/// Every task is either active or completed, so the two partitions
/// account for the whole store: the counts a listing reports add up.
pub proof fn lemma_partition_count(tasks: Seq<TaskView>)
    ensures
        active_tasks(tasks).len() + completed_tasks(tasks).len() == tasks.len(),
    decreases tasks.len(),
{
    reveal(Seq::filter);
    if tasks.len() > 0 {
        lemma_partition_count(tasks.drop_last());
    }
}

/// What the list command shows: the active tasks, the completed tasks,
/// both in file order; the caller chooses whether the completed ones are
/// printed, and reports the counts.
pub struct ListReport {
    pub active: Vec<Todo>,
    pub completed: Vec<Todo>,
}

/// The list command: partition the store by status.  A pure read.
#[verifier::loop_isolation(false)]
pub fn execute(db: &TodoDatabase) -> (r: ListReport)
    ensures
        tasks_view(r.active@) == active_tasks(db@.tasks),
        tasks_view(r.completed@) == completed_tasks(db@.tasks),
{
    let mut active: Vec<Todo> = Vec::new();
    let mut completed: Vec<Todo> = Vec::new();
    let n = db.todos.len();
    let mut i: usize = 0;
    proof {
        assert(tasks_view(db.todos@).take(0) =~= Seq::<TaskView>::empty());
        assert(tasks_view(active@) =~= active_tasks(tasks_view(db.todos@).take(0)));
        assert(tasks_view(completed@) =~= completed_tasks(tasks_view(db.todos@).take(0)));
    }
    while i < n
        invariant
            n == db.todos.len(),
            i <= n,
            tasks_view(active@) == active_tasks(tasks_view(db.todos@).take(i as int)),
            tasks_view(completed@) == completed_tasks(tasks_view(db.todos@).take(i as int)),
        decreases n - i,
    {
        let ghost prefix = tasks_view(db.todos@).take(i as int);
        let ghost cur = tasks_view(db.todos@)[i as int];
        let ghost active0 = active@;
        let ghost completed0 = completed@;
        let is_act = match &db.todos[i].status {
            TodoStatus::Active => true,
            TodoStatus::Completed { .. } => false,
        };
        if is_act {
            active.push(db.todos[i].clone());
        } else {
            completed.push(db.todos[i].clone());
        }
        proof {
            lemma_status_filter_push(prefix, cur);
            assert(tasks_view(db.todos@).take(i + 1) =~= prefix.push(cur));
            if is_active(cur) {
                assert(tasks_view(active@) =~= active_tasks(prefix).push(cur));
                assert(tasks_view(completed@) == tasks_view(completed0));
            } else {
                assert(tasks_view(completed@) =~= completed_tasks(prefix).push(cur));
                assert(tasks_view(active@) == tasks_view(active0));
            }
        }
        i += 1;
    }
    proof {
        assert(tasks_view(db.todos@).take(n as int) =~= tasks_view(db.todos@));
    }
    ListReport { active, completed }
}

/// One step of partitioning: an appended record lands in exactly one of
/// the two partitions.
proof fn lemma_status_filter_push(s: Seq<TaskView>, x: TaskView)
    ensures
        is_active(x) ==> active_tasks(s.push(x)) == active_tasks(s).push(x) && completed_tasks(
            s.push(x),
        ) == completed_tasks(s),
        !is_active(x) ==> completed_tasks(s.push(x)) == completed_tasks(s).push(x) && active_tasks(
            s.push(x),
        ) == active_tasks(s),
{
    reveal(Seq::filter);
    assert(s.push(x).drop_last() =~= s);
    assert(s.push(x).last() == x);
}

} // verus!
