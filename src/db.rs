//! The ordered store: a dense sequence of tasks in display order, each
//! identity at most once, addressed by position and searchable by identity.

use vstd::prelude::*;

use crate::id::Id;
use crate::tasks::Task;
use crate::tasks::TaskView;

verus! {

/// Whether no identity occurs twice in `s`.
pub open spec fn ids_unique(s: Seq<TaskView>) -> bool {
    forall|i: int, j: int| 0 <= i < s.len() && 0 <= j < s.len() && i != j ==> (#[trigger] s[i]).id
        != (#[trigger] s[j]).id
}

/// Whether some task of `s` has identity `id`.
pub open spec fn contains_id(s: Seq<TaskView>, id: Id) -> bool {
    exists|i: int| 0 <= i < s.len() && (#[trigger] s[i]).id == id
}

/// The position of the task with identity `id` in `s`; meaningful where
/// `contains_id(s, id)`.
pub open spec fn position_of(s: Seq<TaskView>, id: Id) -> int {
    choose|i: int| 0 <= i < s.len() && (#[trigger] s[i]).id == id
}

/// Where the identities of `s` are unique, the position of the task at `i`
/// is `i`.
pub proof fn lemma_position_of(s: Seq<TaskView>, i: int)
    requires
        ids_unique(s),
        0 <= i < s.len(),
    ensures
        contains_id(s, s[i].id),
        position_of(s, s[i].id) == i,
{
    assert(s[i].id == s[i].id);
}

/// The views of a list of tasks.
pub open spec fn views(tasks: Seq<Task>) -> Seq<TaskView> {
    tasks.map_values(|t: Task| t@)
}

/// An ordered store of tasks.
#[derive(Debug)]
pub struct Db {
    tasks: Vec<Task>,
}

impl View for Db {
    type V = Seq<TaskView>;

    closed spec fn view(&self) -> Seq<TaskView> {
        views(self.tasks@)
    }
}

impl Db {
    /// Create a store holding `tasks` in the given order.
    pub fn from_iter(tasks: Vec<Task>) -> (r: Self)
        requires
            ids_unique(views(tasks@)),
        ensures
            r@ == views(tasks@),
    {
        Db { tasks }
    }

    /// The number of tasks in the store.
    pub fn len(&self) -> (r: usize)
        ensures
            r == self@.len(),
    {
        self.tasks.len()
    }

    /// The position of the task with identity `id`, if the store holds one.
    pub fn find(&self, id: Id) -> (r: Option<usize>)
        ensures
            self@.len() <= usize::MAX,
            r is None <==> !contains_id(self@, id),
            r matches Some(i) ==> i < self@.len() && self@[i as int].id == id,
            r matches Some(i) ==> ids_unique(self@) ==> i == position_of(self@, id),
    {
        let mut i: usize = 0;
        while i < self.tasks.len()
            invariant
                i <= self@.len(),
                self@.len() == self.tasks@.len(),
                forall|k: int| 0 <= k < i ==> (#[trigger] self@[k]).id != id,
            decreases self@.len() - i,
        {
            if self.tasks[i].id() == id {
                proof {
                    assert(self@[i as int].id == id);
                    if ids_unique(self@) {
                        lemma_position_of(self@, i as int);
                    }
                }
                return Some(i);
            }
            i = i + 1;
        }
        None
    }

    /// The task at position `idx`, if there is one.
    pub fn get(&self, idx: usize) -> (r: Option<&Task>)
        ensures
            r is Some <==> idx < self@.len(),
            r matches Some(t) ==> t@ == self@[idx as int],
    {
        if idx < self.tasks.len() {
            Some(&self.tasks[idx])
        } else {
            None
        }
    }

    /// All tasks in order.
    pub fn iter(&self) -> (r: &[Task])
        ensures
            views(r@) == self@,
    {
        self.tasks.as_slice()
    }

    /// Insert `task` at position `idx`, shifting later tasks to the right.
    pub fn insert(&mut self, idx: usize, task: Task)
        requires
            idx <= old(self)@.len(),
            !contains_id(old(self)@, task@.id),
        ensures
            final(self)@ == old(self)@.insert(idx as int, task@),
            ids_unique(old(self)@) ==> ids_unique(final(self)@),
    {
        let ghost t = task@;
        self.tasks.insert(idx, task);
        proof {
            assert(self@ =~= old(self)@.insert(idx as int, t));
            if ids_unique(old(self)@) {
                assert forall|i: int, j: int|
                    0 <= i < self@.len() && 0 <= j < self@.len() && i != j implies (#[trigger] self@[
                    i]).id != (#[trigger] self@[j]).id by {
                    let oi = if i < idx { i } else { i - 1 };
                    let oj = if j < idx { j } else { j - 1 };
                    if i != idx as int && j != idx as int {
                        assert(self@[i] == old(self)@[oi]);
                        assert(self@[j] == old(self)@[oj]);
                    } else if i == idx as int {
                        assert(self@[j] == old(self)@[oj]);
                    } else {
                        assert(self@[i] == old(self)@[oi]);
                    }
                }
            }
        }
    }

    /// Append `task` after the last task.
    pub fn push(&mut self, task: Task)
        requires
            !contains_id(old(self)@, task@.id),
        ensures
            final(self)@ == old(self)@.push(task@),
            ids_unique(old(self)@) ==> ids_unique(final(self)@),
    {
        let n = self.tasks.len();
        self.insert(n, task);
        proof {
            assert(old(self)@.insert(n as int, task@) =~= old(self)@.push(task@));
        }
    }

    /// Remove and return the task at position `idx`, shifting later tasks
    /// to the left.
    pub fn remove(&mut self, idx: usize) -> (r: Task)
        requires
            idx < old(self)@.len(),
        ensures
            r@ == old(self)@[idx as int],
            final(self)@ == old(self)@.remove(idx as int),
            ids_unique(old(self)@) ==> ids_unique(final(self)@),
            ids_unique(old(self)@) ==> !contains_id(final(self)@, r@.id),
    {
        let r = self.tasks.remove(idx);
        proof {
            assert(self@ =~= old(self)@.remove(idx as int));
            if ids_unique(old(self)@) {
                assert forall|i: int, j: int|
                    0 <= i < self@.len() && 0 <= j < self@.len() && i != j implies (#[trigger] self@[
                    i]).id != (#[trigger] self@[j]).id by {
                    let oi = if i < idx { i } else { i + 1 };
                    let oj = if j < idx { j } else { j + 1 };
                    assert(self@[i] == old(self)@[oi]);
                    assert(self@[j] == old(self)@[oj]);
                }
                if contains_id(self@, r@.id) {
                    let k = choose|k: int| 0 <= k < self@.len() && (#[trigger] self@[k]).id == r@.id;
                    let ok = if k < idx { k } else { k + 1 };
                    assert(self@[k] == old(self)@[ok]);
                    assert(old(self)@[idx as int].id == r@.id);
                    assert(ok != idx as int);
                    assert(old(self)@[ok].id != old(self)@[idx as int].id);
                }
            }
        }
        r
    }

    /// Overwrite the content of the task at position `idx` with that of
    /// `other`, keeping its identity; return a snapshot of what it held.
    pub fn update(&mut self, idx: usize, other: Task) -> (r: Task)
        requires
            idx < old(self)@.len(),
        ensures
            r@ == old(self)@[idx as int],
            final(self)@ == old(self)@.update(
                idx as int,
                TaskView { id: old(self)@[idx as int].id, ..other@ },
            ),
            ids_unique(old(self)@) ==> ids_unique(final(self)@),
    {
        let before = self.tasks[idx].snapshot();
        self.tasks[idx].update_from(other);
        proof {
            assert(self@ =~= old(self)@.update(
                idx as int,
                TaskView { id: old(self)@[idx as int].id, ..other@ },
            ));
            if ids_unique(old(self)@) {
                assert forall|i: int, j: int|
                    0 <= i < self@.len() && 0 <= j < self@.len() && i != j implies (#[trigger] self@[
                    i]).id != (#[trigger] self@[j]).id by {
                    assert(self@[i].id == old(self)@[i].id);
                    assert(self@[j].id == old(self)@[j].id);
                }
            }
        }
        before
    }
}

} // verus!
