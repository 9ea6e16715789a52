use vstd::prelude::*;
use vstd::pervasive::VecAdditionalExecFns;
use crate::todo::{TaskView, Todo};
use crate::value_objects::TodoId;

verus! {

/// Mathematical image of a [`TodoDatabase`].
pub ghost struct DbView {
    pub version: Seq<char>,
    pub next_id: u32,
    pub tasks: Seq<TaskView>,
}

/// The views of a sequence of stored tasks.
pub open spec fn tasks_view(ts: Seq<Todo>) -> Seq<TaskView> {
    ts.map_values(|t: Todo| t@)
}

/// The database a fresh store starts from: schema version "1.0", counter
/// at 1, no tasks.
pub open spec fn initial_db() -> DbView {
    DbView { version: "1.0"@, next_id: 1, tasks: Seq::empty() }
}

/// Position of the first record with identifier `id`; the sequence's
/// length when there is none.
pub open spec fn find_index(tasks: Seq<TaskView>, id: u32) -> int
    decreases tasks.len(),
{
    if tasks.len() == 0 {
        0
    } else if tasks[0].id == id {
        0
    } else {
        1 + find_index(tasks.drop_first(), id)
    }
}

/// Whether some record carries identifier `id`.
pub open spec fn has_task(tasks: Seq<TaskView>, id: u32) -> bool {
    exists|i: int| 0 <= i < tasks.len() && (#[trigger] tasks[i]).id == id
}

/// The first record with identifier `id`, if any.
pub open spec fn find_task(tasks: Seq<TaskView>, id: u32) -> Option<TaskView> {
    if find_index(tasks, id) < tasks.len() {
        Some(tasks[find_index(tasks, id)])
    } else {
        None
    }
}

/// Upsert: replace the first record with the same identifier in place, or
/// append at the end when the identifier is new.
pub open spec fn upsert(tasks: Seq<TaskView>, t: TaskView) -> Seq<TaskView> {
    if find_index(tasks, t.id) < tasks.len() {
        tasks.update(find_index(tasks, t.id), t)
    } else {
        tasks.push(t)
    }
}

/// Removal: every record with identifier `id` goes, the rest keep their
/// order.
pub open spec fn remove_task(tasks: Seq<TaskView>, id: u32) -> Seq<TaskView> {
    tasks.filter(|t: TaskView| t.id != id)
}

/// `find_index` points at the first match: everything before it has
/// another identifier, and it lands on a match whenever one exists.
pub proof fn lemma_find_index_spec(tasks: Seq<TaskView>, id: u32)
    ensures
        0 <= find_index(tasks, id) <= tasks.len(),
        find_index(tasks, id) < tasks.len() ==> tasks[find_index(tasks, id)].id == id,
        forall|j: int| 0 <= j < find_index(tasks, id) ==> (#[trigger] tasks[j]).id != id,
    decreases tasks.len(),
{
    if tasks.len() == 0 {
    } else if tasks[0].id == id {
    } else {
        let rest = tasks.drop_first();
        lemma_find_index_spec(rest, id);
        assert forall|j: int| 0 <= j < find_index(tasks, id) implies (#[trigger] tasks[j]).id
            != id by {
            if j > 0 {
                assert(tasks[j] == rest[j - 1]);
            }
        }
    }
}

/// `find_index` is the only position with a match behind and none before.
pub proof fn lemma_find_index_at(tasks: Seq<TaskView>, id: u32, i: int)
    requires
        0 <= i <= tasks.len(),
        forall|j: int| 0 <= j < i ==> (#[trigger] tasks[j]).id != id,
        i < tasks.len() ==> tasks[i].id == id,
    ensures
        find_index(tasks, id) == i,
    decreases tasks.len(),
{
    if tasks.len() == 0 {
    } else if tasks[0].id == id {
        if i > 0 {
            assert(tasks[0].id != id);
        }
    } else {
        assert(i >= 1) by {
            if i == 0 {
                assert(tasks[0].id == id);
            }
        }
        let rest = tasks.drop_first();
        assert forall|j: int| 0 <= j < i - 1 implies (#[trigger] rest[j]).id != id by {
            assert(rest[j] == tasks[j + 1]);
        }
        assert(i - 1 < rest.len() ==> rest[i - 1].id == id) by {
            if i - 1 < rest.len() {
                assert(rest[i - 1] == tasks[i]);
            }
        }
        lemma_find_index_at(rest, id, i - 1);
    }
}

/// What a lookup returns: a record exists for the identifier exactly when
/// the lookup finds one, and then it is the first such record.
pub proof fn lemma_find_task_spec(tasks: Seq<TaskView>, id: u32)
    ensures
        find_task(tasks, id) is Some <==> has_task(tasks, id),
        find_task(tasks, id) matches Some(t) ==> t.id == id && tasks[find_index(tasks, id)] == t
            && forall|j: int| 0 <= j < find_index(tasks, id) ==> (#[trigger] tasks[j]).id != id,
{
    lemma_find_index_spec(tasks, id);
    let i = find_index(tasks, id);
    if i < tasks.len() {
        assert(has_task(tasks, id));
    } else {
        if has_task(tasks, id) {
            let w = choose|w: int| 0 <= w < tasks.len() && (#[trigger] tasks[w]).id == id;
            assert(tasks[w].id != id);
        }
    }
}

/// Saving a record and then looking its identifier up finds exactly that
/// record, whatever was stored before.
pub proof fn lemma_save_then_find(tasks: Seq<TaskView>, t: TaskView)
    ensures
        find_task(upsert(tasks, t), t.id) == Some(t),
{
    lemma_find_index_spec(tasks, t.id);
    let i = find_index(tasks, t.id);
    if i < tasks.len() {
        lemma_find_index_at(tasks.update(i, t), t.id, i);
    } else {
        lemma_find_index_at(tasks.push(t), t.id, tasks.len() as int);
    }
}

/// A record with the identifier exists exactly when `find_index` lands
/// inside the sequence.
pub proof fn lemma_has_task_find_index(tasks: Seq<TaskView>, id: u32)
    ensures
        has_task(tasks, id) <==> find_index(tasks, id) < tasks.len(),
{
    lemma_find_index_spec(tasks, id);
    if find_index(tasks, id) < tasks.len() {
        assert(has_task(tasks, id));
    } else if has_task(tasks, id) {
        let w = choose|w: int| 0 <= w < tasks.len() && (#[trigger] tasks[w]).id == id;
        assert(tasks[w].id != id);
    }
}

/// Saving over an existing identifier replaces that record in place: the
/// store keeps its length and no other record is altered.
pub proof fn lemma_upsert_replaces(tasks: Seq<TaskView>, t: TaskView)
    requires
        has_task(tasks, t.id),
    ensures
        upsert(tasks, t).len() == tasks.len(),
        upsert(tasks, t)[find_index(tasks, t.id)] == t,
        forall|j: int| 0 <= j < tasks.len() && j != find_index(tasks, t.id)
            ==> upsert(tasks, t)[j] == tasks[j],
{
    lemma_find_index_spec(tasks, t.id);
    lemma_has_task_find_index(tasks, t.id);
}

/// Saving a fresh identifier appends: everything already stored stays put.
pub proof fn lemma_upsert_inserts(tasks: Seq<TaskView>, t: TaskView)
    requires
        !has_task(tasks, t.id),
    ensures
        upsert(tasks, t) == tasks.push(t),
{
    lemma_has_task_find_index(tasks, t.id);
}

/// Deleting an identifier that no record carries changes nothing.
pub proof fn lemma_remove_absent(tasks: Seq<TaskView>, id: u32)
    requires
        !has_task(tasks, id),
    ensures
        remove_task(tasks, id) == tasks,
    decreases tasks.len(),
{
    reveal(Seq::filter);
    if tasks.len() > 0 {
        let rest = tasks.drop_last();
        assert(!has_task(rest, id)) by {
            if has_task(rest, id) {
                let w = choose|w: int| 0 <= w < rest.len() && (#[trigger] rest[w]).id == id;
                assert(tasks[w].id == id);
            }
        }
        lemma_remove_absent(rest, id);
        assert(tasks[tasks.len() - 1].id != id);
        assert(remove_task(tasks, id) =~= tasks);
    }
}

/// The whole durable state: a schema version tag, the next-id counter,
/// and the stored tasks in file order.  This is the unit every load,
/// mutation and save works on.
#[derive(Debug)]
pub struct TodoDatabase {
    pub version: String,
    pub next_id: u32,
    pub todos: Vec<Todo>,
}

impl View for TodoDatabase {
    type V = DbView;

    open spec fn view(&self) -> DbView {
        DbView { version: self.version@, next_id: self.next_id, tasks: tasks_view(self.todos@) }
    }
}

impl TodoDatabase {
    /// The empty store a missing file stands for.
    pub fn empty() -> (r: TodoDatabase)
        ensures
            r@ == initial_db(),
    {
        let r = TodoDatabase {
            version: String::from_str("1.0"),
            next_id: 1,
            todos: Vec::new(),
        };
        proof {
            assert(tasks_view(r.todos@) =~= Seq::<TaskView>::empty());
        }
        r
    }

    /// Every stored task, in file order.
    #[verifier::loop_isolation(false)]
    pub fn find_all(&self) -> (r: Vec<Todo>)
        ensures
            tasks_view(r@) == self@.tasks,
    {
        let mut out: Vec<Todo> = Vec::new();
        let n = self.todos.len();
        let mut i: usize = 0;
        while i < n
            invariant
                n == self.todos.len(),
                i <= n,
                tasks_view(out@) == tasks_view(self.todos@.take(i as int)),
            decreases n - i,
        {
            let ghost out0 = out@;
            out.push(self.todos[i].clone());
            proof {
                let a = tasks_view(out@);
                let b = tasks_view(self.todos@.take(i + 1));
                assert(a.len() == b.len());
                assert forall|j: int| 0 <= j < a.len() implies a[j] == b[j] by {
                    assert(self.todos@.take(i + 1)[j] == self.todos@[j]);
                    if j < i {
                        assert(out@[j] == out0[j]);
                        assert(a[j] == tasks_view(out0)[j]);
                        assert(tasks_view(out0)[j] == tasks_view(self.todos@.take(i as int))[j]);
                        assert(self.todos@.take(i as int)[j] == self.todos@[j]);
                    }
                }
                assert(a =~= b);
            }
            i += 1;
        }
        proof {
            assert(self.todos@.take(n as int) =~= self.todos@);
        }
        out
    }

    /// The first stored task with the identifier, if any, as a copy.
    #[verifier::loop_isolation(false)]
    pub fn find_by_id(&self, id: &TodoId) -> (r: Option<Todo>)
        ensures
            r matches Some(t) ==> find_task(self@.tasks, id@) == Some(t@),
            r is None ==> find_task(self@.tasks, id@) is None,
    {
        let idv = id.value();
        let n = self.todos.len();
        let mut i: usize = 0;
        while i < n
            invariant
                n == self.todos.len(),
                i <= n,
                forall|j: int| 0 <= j < i ==> (#[trigger] tasks_view(self.todos@)[j]).id != id@,
            decreases n - i,
        {
            if self.todos[i].id.value() == idv {
                proof {
                    lemma_find_index_at(self@.tasks, id@, i as int);
                }
                return Some(self.todos[i].clone());
            }
            i += 1;
        }
        proof {
            lemma_find_index_at(self@.tasks, id@, n as int);
        }
        None
    }

    /// Upsert by identifier: replaces the first record with the same id in
    /// place, else appends; never reorders the other records.
    #[verifier::loop_isolation(false)]
    pub fn save(&mut self, todo: Todo)
        ensures
            final(self)@.version == old(self)@.version,
            final(self)@.next_id == old(self)@.next_id,
            final(self)@.tasks == upsert(old(self)@.tasks, todo@),
    {
        let idv = todo.id.value();
        let n = self.todos.len();
        let mut i: usize = 0;
        while i < n
            invariant
                n == self.todos.len(),
                i <= n,
                *self == *old(self),
                forall|j: int| 0 <= j < i ==> (#[trigger] tasks_view(self.todos@)[j]).id
                    != todo@.id,
            decreases n - i,
        {
            if self.todos[i].id.value() == idv {
                proof {
                    lemma_find_index_at(old(self)@.tasks, todo@.id, i as int);
                }
                self.todos.set(i, todo);
                proof {
                    assert(tasks_view(self.todos@) =~= old(self)@.tasks.update(i as int, todo@));
                }
                return;
            }
            i += 1;
        }
        proof {
            lemma_find_index_at(old(self)@.tasks, todo@.id, n as int);
        }
        self.todos.push(todo);
        proof {
            assert(tasks_view(self.todos@) =~= old(self)@.tasks.push(todo@));
        }
    }

    /// Removes every record with the identifier; a no-op when none exists.
    #[verifier::loop_isolation(false)]
    pub fn delete(&mut self, id: &TodoId)
        ensures
            final(self)@.version == old(self)@.version,
            final(self)@.next_id == old(self)@.next_id,
            final(self)@.tasks == remove_task(old(self)@.tasks, id@),
    {
        let idv = id.value();
        let mut kept: Vec<Todo> = Vec::new();
        let n = self.todos.len();
        let mut i: usize = 0;
        while i < n
            invariant
                n == self.todos.len(),
                i <= n,
                *self == *old(self),
                tasks_view(kept@) == remove_task(tasks_view(self.todos@).take(i as int), id@),
            decreases n - i,
        {
            let ghost prefix = tasks_view(self.todos@).take(i as int);
            let ghost cur = tasks_view(self.todos@)[i as int];
            if self.todos[i].id.value() != idv {
                kept.push(self.todos[i].clone());
            }
            proof {
                lemma_remove_push(prefix, cur, id@);
                assert(tasks_view(self.todos@).take(i + 1) =~= prefix.push(cur));
                if cur.id != id@ {
                    assert(tasks_view(kept@) =~= remove_task(prefix, id@).push(cur));
                }
            }
            i += 1;
        }
        proof {
            assert(tasks_view(self.todos@).take(n as int) =~= tasks_view(self.todos@));
        }
        self.todos = kept;
    }

    /// Hands out the counter's value and advances it; the caller owes the
    /// immediate persistence of the advanced counter.
    pub fn next_id(&mut self) -> (r: u32)
        requires
            old(self)@.next_id < u32::MAX,
        ensures
            r == old(self)@.next_id,
            final(self)@.next_id == old(self)@.next_id + 1,
            final(self)@.version == old(self)@.version,
            final(self)@.tasks == old(self)@.tasks,
    {
        let id = self.next_id;
        self.next_id = self.next_id + 1;
        id
    }
}

/// One step of filtering: appending a record extends the filtered image
/// exactly when the record survives the filter.
proof fn lemma_remove_push(s: Seq<TaskView>, x: TaskView, id: u32)
    ensures
        x.id != id ==> remove_task(s.push(x), id) == remove_task(s, id).push(x),
        x.id == id ==> remove_task(s.push(x), id) == remove_task(s, id),
{
    reveal(Seq::filter);
    assert(s.push(x).drop_last() =~= s);
    assert(s.push(x).last() == x);
}

} // verus!

