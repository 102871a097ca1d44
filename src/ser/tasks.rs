//! Persisted shape of tasks.

use vstd::prelude::*;

use crate::ser::id::Id as IdT;
use crate::ser::tags::Tag;
use crate::ser::tags::Templates;

verus! {

/// The marker type that distinguishes task identifiers.
#[derive(Clone, Copy, Debug, PartialEq, Eq)]
pub struct T(());

/// A persisted task identifier.
///
/// Tasks carry such an identifier only in persisted form; in memory it
/// corresponds to the task's `crate::id::Id`.
pub type Id = IdT<T>;

/// A task as it is persisted: its summary and the tags set on it.
#[derive(Clone, Debug, PartialEq)]
pub struct Task {
    pub summary: String,
    pub tags: Vec<Tag>,
}

impl Task {
    /// Create a new task with the given summary and no tags.
    pub fn new(summary: &str) -> (r: Self)
        ensures
            r.summary@ == summary@,
            r.tags@ == Seq::<Tag>::empty(),
    {
        Self { summary: String::from_str(summary), tags: Vec::new() }
    }

    /// Replace the task's tags with the given ones.
    pub fn with_tags(self, tags: Vec<Tag>) -> (r: Self)
        ensures
            r.summary == self.summary,
            r.tags@ == tags@,
    {
        Task { summary: self.summary, tags }
    }
}

/// Meta data for tasks.
#[derive(Debug, Default, PartialEq)]
pub struct TasksMeta {
    pub templates: Templates,
    /// IDs of tasks in the intended order.
    pub ids: Vec<Id>,
}

/// A list of tasks in display order, each with its identifier.
#[derive(Debug, Default, PartialEq)]
pub struct Tasks(pub Vec<(Id, Task)>);

impl Tasks {
    /// Number the given tasks 1, 2, 3, ... in order.
    pub fn from_task_vec(tasks: Vec<Task>) -> (r: Self)
        ensures
            r.0@.len() == tasks@.len(),
            forall|i: int| 0 <= i < tasks@.len() ==> (#[trigger] r.0@[i]).0@ == i + 1 && r.0@[i].1
                == tasks@[i],
    {
        let mut records: Vec<(Id, Task)> = Vec::new();
        let ghost all = tasks@;
        let len: usize = tasks.len();
        for task in it: tasks.into_iter()
            invariant
                it.seq() == all,
                records@.len() == it.index(),
                all.len() == len,
                forall|i: int| 0 <= i < records@.len() ==> (#[trigger] records@[i]).0@ == i + 1
                    && records@[i].1 == all[i],
        {
            let n: usize = records.len();
            records.push((Id::new(n + 1), task));
        }
        Tasks(records)
    }

    /// Drop the identifiers and keep the tasks in order.
    pub fn into_task_vec(self) -> (r: Vec<Task>)
        ensures
            r@.len() == self.0@.len(),
            forall|i: int| 0 <= i < r@.len() ==> #[trigger] r@[i] == self.0@[i].1,
    {
        let mut tasks: Vec<Task> = Vec::new();
        let ghost all = self.0@;
        for record in it: self.0.into_iter()
            invariant
                it.seq() == all,
                tasks@.len() == it.index(),
                forall|i: int| 0 <= i < tasks@.len() ==> #[trigger] tasks@[i] == all[i].1,
        {
            tasks.push(record.1);
        }
        tasks
    }
}

} // verus!
