//! Tasks, the reversible operations on an ordered store of them, and the
//! facade that drives every change through the undo/redo log.

use std::rc::Rc;

use vstd::prelude::*;

use crate::db::contains_id;
use crate::db::ids_unique;
use crate::db::lemma_position_of;
use crate::db::position_of;
use crate::db::views;
use crate::db::Db;
use crate::history::history_ids_below;
use crate::history::ids_below;
use crate::history::lemma_ids_below_kept;
use crate::history::History;
use crate::history::State;
use crate::id::Id;
use crate::id::Ids;
use crate::ops::Ops;
use crate::ser::tasks::Id as SerTaskId;
use crate::ser::tasks::Task as SerTask;
use crate::ser::tasks::Tasks as SerTasks;
use crate::ser::tags::Tag as SerTag;
use crate::ser::tags::Template as SerTemplate;
use crate::tags::has_template_id;
use crate::tags::tags_of;
use crate::tags::Tag;
use crate::tags::Templates;

verus! {

/// Relies on `Rc::clone`: the new pointer shares the allocation, so it
/// denotes the same registry.
#[verifier::external_body]
fn share(templates: &Rc<Templates>) -> (r: Rc<Templates>)
    ensures
        r == *templates,
{
    Rc::clone(templates)
}

/// What a task holds, as a mathematical value: its identity, its summary
/// and its set of tags.
pub ghost struct TaskView {
    pub id: Id,
    pub summary: Seq<char>,
    pub tags: Set<Tag>,
}

/// The reason persisted tasks could not be loaded.
#[derive(Clone, Copy, Debug, PartialEq, Eq, Structural)]
pub enum LoadError {
    /// A task refers to a tag template that the registry does not hold.
    InvalidTagId(usize),
    /// Two tasks share the identifier.
    DuplicateTaskId(usize),
}

/// Whether every tag of `tags` names a template of `templates`.
pub open spec fn all_tags_valid(tags: Seq<SerTag>, templates: Templates) -> bool {
    forall|k: int| 0 <= k < tags.len() ==> has_template_id(templates@, (#[trigger] tags[k]).id@)
}

/// Whether `id` is the identifier of the first tag of `tags` that names no
/// template of `templates`.
pub open spec fn first_invalid_tag(tags: Seq<SerTag>, templates: Templates, id: usize) -> bool {
    exists|k: int|
        0 <= k < tags.len() && (#[trigger] tags[k]).id@ == id && !has_template_id(templates@, id)
            && all_tags_valid(tags.subrange(0, k), templates)
}

/// A task: a summary and a set of tags under a fixed identity.
#[derive(Debug)]
pub struct Task {
    id: Id,
    summary: String,
    tags: Vec<Tag>,
    templates: Rc<Templates>,
}

impl View for Task {
    type V = TaskView;

    closed spec fn view(&self) -> TaskView {
        TaskView { id: self.id, summary: self.summary@, tags: self.tags@.to_set() }
    }
}

/// Append `tag` to `tags` unless it is there already; report whether it
/// was appended.
fn push_unique(tags: &mut Vec<Tag>, tag: Tag) -> (r: bool)
    requires
        old(tags)@.no_duplicates(),
    ensures
        r == !old(tags)@.contains(tag),
        final(tags)@.no_duplicates(),
        final(tags)@.to_set() == old(tags)@.to_set().insert(tag),
{
    let mut i: usize = 0;
    while i < tags.len()
        invariant
            tags@ == old(tags)@,
            tags@.no_duplicates(),
            i <= tags@.len(),
            forall|k: int| 0 <= k < i ==> tags@[k] != tag,
        decreases tags@.len() - i,
    {
        if tags[i] == tag {
            proof {
                assert(tags@.contains(tag));
                assert(tags@.to_set() =~= tags@.to_set().insert(tag));
            }
            return false;
        }
        i = i + 1;
    }
    let ghost before = tags@;
    tags.push(tag);
    proof {
        assert(!before.contains(tag));
        assert forall|a: Tag| #[trigger] tags@.contains(a) <==> before.contains(a) || a == tag by {
            if tags@.contains(a) {
                let k = choose|k: int| 0 <= k < tags@.len() && tags@[k] == a;
                if k < before.len() {
                    assert(before[k] == a);
                }
            }
            if before.contains(a) {
                let k = choose|k: int| 0 <= k < before.len() && before[k] == a;
                assert(tags@[k] == a);
            }
            if a == tag {
                assert(tags@[before.len() as int] == a);
            }
        }
        assert(tags@.to_set() =~= before.to_set().insert(tag));
    }
    true
}

/// The tags of `tags` without repetitions.
fn distinct_tags(tags: Vec<Tag>) -> (r: Vec<Tag>)
    ensures
        r@.no_duplicates(),
        r@.to_set() == tags@.to_set(),
{
    let mut r: Vec<Tag> = Vec::new();
    let mut i: usize = 0;
    proof {
        assert(r@.to_set() =~= tags@.subrange(0, 0).to_set());
    }
    while i < tags.len()
        invariant
            i <= tags@.len(),
            r@.no_duplicates(),
            r@.to_set() == tags@.subrange(0, i as int).to_set(),
        decreases tags@.len() - i,
    {
        let tag = tags[i];
        push_unique(&mut r, tag);
        proof {
            let s = tags@.subrange(0, i as int);
            let t = tags@.subrange(0, i + 1);
            assert(t =~= s.push(tag));
            assert forall|a: Tag| #[trigger] t.contains(a) <==> s.contains(a) || a == tag by {
                if t.contains(a) {
                    let k = choose|k: int| 0 <= k < t.len() && t[k] == a;
                    if k < s.len() {
                        assert(s[k] == a);
                    }
                }
                if s.contains(a) {
                    let k = choose|k: int| 0 <= k < s.len() && s[k] == a;
                    assert(t[k] == a);
                }
                if a == tag {
                    assert(t[i as int] == a);
                }
            }
            assert(t.to_set() =~= s.to_set().insert(tag));
        }
        i = i + 1;
    }
    proof {
        assert(tags@.subrange(0, tags@.len() as int) =~= tags@);
    }
    r
}

impl Task {
    #[verifier::type_invariant]
    closed spec fn distinct(self) -> bool {
        self.tags@.no_duplicates()
    }

    /// The registry the task's tags come from.
    pub closed spec fn registry(&self) -> Rc<Templates> {
        self.templates
    }

    /// Create a task with the given summary, no tags and an empty registry.
    pub fn new(ids: &mut Ids, summary: &str) -> (r: Self)
        requires
            old(ids).next() < usize::MAX,
        ensures
            r@.id@ == old(ids).next(),
            r@.summary == summary@,
            r@.tags == Set::<Tag>::empty(),
            final(ids).next() == old(ids).next() + 1,
    {
        let id = ids.allocate();
        let tags: Vec<Tag> = Vec::new();
        proof {
            assert(tags@.to_set() =~= Set::<Tag>::empty());
        }
        Task {
            id,
            summary: String::from_str(summary),
            tags,
            templates: Rc::new(Templates::new()),
        }
    }

    /// Create a task with the given summary and tags.
    pub fn with_summary_and_tags(
        ids: &mut Ids,
        summary: String,
        tags: Vec<Tag>,
        templates: Rc<Templates>,
    ) -> (r: Self)
        requires
            old(ids).next() < usize::MAX,
        ensures
            r@ == (TaskView { id: r@.id, summary: summary@, tags: tags@.to_set() }),
            r@.id@ == old(ids).next(),
            r.registry() == templates,
            final(ids).next() == old(ids).next() + 1,
    {
        let id = ids.allocate();
        Task { id, summary, tags: distinct_tags(tags), templates }
    }

    /// Create a task from its persisted shape, instantiating its tags from
    /// `templates`.
    pub fn with_serde(id: SerTaskId, task: SerTask, templates: Rc<Templates>) -> (r: Result<
        Self,
        LoadError,
    >)
        ensures
            r is Ok <==> all_tags_valid(task.tags@, *templates),
            r matches Ok(t) ==> t@.id@ == id@ && t@.summary == task.summary@ && t@.tags == tags_of(
                task.tags@,
            ) && t.registry() == templates,
            r matches Err(e) ==> e matches LoadError::InvalidTagId(x) && first_invalid_tag(
                task.tags@,
                *templates,
                x,
            ),
    {
        let mut tags: Vec<Tag> = Vec::new();
        let mut i: usize = 0;
        proof {
            assert(tags@.to_set() =~= tags_of(task.tags@.subrange(0, 0)));
        }
        while i < task.tags.len()
            invariant
                i <= task.tags@.len(),
                tags@.no_duplicates(),
                tags@.to_set() == tags_of(task.tags@.subrange(0, i as int)),
                all_tags_valid(task.tags@.subrange(0, i as int), *templates),
            decreases task.tags@.len() - i,
        {
            let ser_tag = task.tags[i];
            match templates.instantiate(ser_tag.id) {
                Some(tag) => {
                    push_unique(&mut tags, tag);
                    proof {
                        let s = task.tags@.subrange(0, i as int);
                        let t = task.tags@.subrange(0, i + 1);
                        assert(t =~= s.push(ser_tag));
                        assert forall|u: Tag| #[trigger] tags_of(t).contains(u) <==> tags_of(s).contains(u)
                            || u == tag by {
                            if tags_of(t).contains(u) {
                                let k = choose|k: int| 0 <= k < t.len() && (#[trigger] t[k]).id@ == u.template_id();
                                if k < s.len() {
                                    assert(s[k] == t[k]);
                                } else {
                                    Tag::lemma_template_id_injective(u, tag);
                                }
                            }
                            if tags_of(s).contains(u) {
                                let k = choose|k: int| 0 <= k < s.len() && (#[trigger] s[k]).id@ == u.template_id();
                                assert(t[k] == s[k]);
                            }
                            if u == tag {
                                assert(t[i as int] == ser_tag);
                            }
                        }
                        assert(tags_of(t) =~= tags_of(s).insert(tag));
                        assert forall|k: int| 0 <= k < t.len() implies has_template_id(
                            templates@,
                            (#[trigger] t[k]).id@,
                        ) by {
                            if k < s.len() {
                                assert(s[k] == t[k]);
                            }
                        }
                    }
                },
                None => {
                    let bad = ser_tag.id.get();
                    proof {
                        assert(task.tags@[i as int].id@ == bad);
                    }
                    return Err(LoadError::InvalidTagId(bad));
                },
            }
            i = i + 1;
        }
        proof {
            assert(task.tags@.subrange(0, task.tags@.len() as int) =~= task.tags@);
        }
        let id = Id::from_unique_id(id.get());
        Ok(Task { id, summary: task.summary, tags, templates })
    }

    /// Convert the task into its persisted shape.
    pub fn to_serde(&self) -> (r: (SerTaskId, SerTask))
        ensures
            r.0@ == self@.id@,
            r.1.summary@ == self@.summary,
            lists_tags(r.1.tags@, self@.tags),
    {
        proof {
            use_type_invariant(self);
        }
        let mut tags: Vec<SerTag> = Vec::new();
        let mut i: usize = 0;
        while i < self.tags.len()
            invariant
                self.tags@.no_duplicates(),
                i <= self.tags@.len(),
                tags@.len() == i,
                forall|k: int| 0 <= k < i ==> (#[trigger] tags@[k]).id@ == self.tags@[k].template_id(),
            decreases self.tags@.len() - i,
        {
            tags.push(self.tags[i].to_serde());
            i = i + 1;
        }
        proof {
            assert forall|k: int| 0 <= k < tags@.len() implies names_tag_in(
                self@.tags,
                (#[trigger] tags@[k]).id@,
            ) by {
                assert(self.tags@.contains(self.tags@[k]));
                assert(self@.tags.contains(self.tags@[k]));
            }
            assert forall|i: int, j: int|
                0 <= i < tags@.len() && 0 <= j < tags@.len() && i != j implies (#[trigger] tags@[i]).id@
                    != (#[trigger] tags@[j]).id@ by {
                Tag::lemma_template_id_injective(self.tags@[i], self.tags@[j]);
            }
            assert forall|u: Tag| #[trigger] tags_of(tags@).contains(u) <==> self.tags@.to_set().contains(u) by {
                if tags_of(tags@).contains(u) {
                    let k = choose|k: int| 0 <= k < tags@.len() && (#[trigger] tags@[k]).id@ == u.template_id();
                    Tag::lemma_template_id_injective(u, self.tags@[k]);
                }
                if self.tags@.contains(u) {
                    let k = choose|k: int| 0 <= k < self.tags@.len() && self.tags@[k] == u;
                    assert(tags@[k].id@ == u.template_id());
                }
            }
            assert(tags_of(tags@) =~= self.tags@.to_set());
            self.tags@.unique_seq_to_set();
        }
        let id = SerTaskId::new(self.id.get());
        (id, SerTask { summary: self.summary.clone(), tags })
    }

    /// A deep copy of the task: later changes to one do not show in the
    /// other.
    pub fn snapshot(&self) -> (r: Self)
        ensures
            r@ == self@,
            r.registry() == self.registry(),
    {
        proof {
            use_type_invariant(self);
        }
        let tags = self.tags.clone();
        assert(tags@ =~= self.tags@);
        Task {
            id: self.id,
            summary: self.summary.clone(),
            tags,
            templates: share(&self.templates),
        }
    }

    /// Overwrite the task's content with that of `other`; the task keeps its
    /// own identity.
    pub fn update_from(&mut self, other: Task)
        ensures
            final(self)@ == (TaskView { id: old(self)@.id, ..other@ }),
            final(self).registry() == other.registry(),
    {
        proof {
            use_type_invariant(&other);
        }
        *self = Task { id: self.id, summary: other.summary, tags: other.tags, templates: other.templates };
    }

    /// Retrieve the task's identity.
    pub fn id(&self) -> (r: Id)
        ensures
            r == self@.id,
    {
        self.id
    }

    /// Retrieve the task's summary.
    pub fn summary(&self) -> (r: String)
        ensures
            r@ == self@.summary,
    {
        self.summary.clone()
    }

    /// Change the task's summary.
    pub fn set_summary(&mut self, summary: String)
        ensures
            final(self)@ == (TaskView { summary: summary@, ..old(self)@ }),
            final(self).registry() == old(self).registry(),
    {
        proof {
            use_type_invariant(&*self);
        }
        self.summary = summary;
    }

    /// The task's tags, each once, in no particular order.
    pub fn tags(&self) -> (r: &[Tag])
        ensures
            r@.to_set() == self@.tags,
            r@.no_duplicates(),
    {
        proof {
            use_type_invariant(self);
        }
        self.tags.as_slice()
    }

    /// Replace the task's tags.
    pub fn set_tags(&mut self, tags: Vec<Tag>)
        ensures
            final(self)@ == (TaskView { tags: tags@.to_set(), ..old(self)@ }),
            final(self).registry() == old(self).registry(),
    {
        self.tags = distinct_tags(tags);
    }

    /// Check whether the task has `tag` set.
    pub fn has_tag(&self, tag: &Tag) -> (r: bool)
        ensures
            r == self@.tags.contains(*tag),
    {
        let mut i: usize = 0;
        while i < self.tags.len()
            invariant
                i <= self.tags@.len(),
                forall|k: int| 0 <= k < i ==> self.tags@[k] != *tag,
            decreases self.tags@.len() - i,
        {
            if self.tags[i] == *tag {
                proof {
                    assert(self.tags@.contains(*tag));
                }
                return true;
            }
            i = i + 1;
        }
        false
    }

    /// Ensure that `tag` is set on the task; report whether it was not set
    /// before.
    pub fn set_tag(&mut self, tag: Tag) -> (r: bool)
        ensures
            r == !old(self)@.tags.contains(tag),
            final(self)@ == (TaskView { tags: old(self)@.tags.insert(tag), ..old(self)@ }),
            final(self).registry() == old(self).registry(),
    {
        proof {
            use_type_invariant(&*self);
        }
        let mut tags = self.tags.clone();
        assert(tags@ =~= self.tags@);
        let inserted = push_unique(&mut tags, tag);
        self.tags = tags;
        inserted
    }

    /// Ensure that `tag` is not set on the task; report whether it was set
    /// before.
    pub fn unset_tag(&mut self, tag: &Tag) -> (r: bool)
        ensures
            r == old(self)@.tags.contains(*tag),
            final(self)@ == (TaskView { tags: old(self)@.tags.remove(*tag), ..old(self)@ }),
            final(self).registry() == old(self).registry(),
    {
        proof {
            use_type_invariant(&*self);
        }
        let ghost before = self.tags@;
        let mut i: usize = 0;
        while i < self.tags.len()
            invariant
                *self == *old(self),
                self.tags@ == before,
                before.no_duplicates(),
                i <= before.len(),
                forall|k: int| 0 <= k < i ==> before[k] != *tag,
            decreases before.len() - i,
        {
            if self.tags[i] == *tag {
                let mut tags = self.tags.clone();
                assert(tags@ =~= before);
                tags.remove(i);
                proof {
                    let after = tags@;
                    assert(after =~= before.remove(i as int));
                    assert forall|a: Tag| #[trigger] after.contains(a) <==> before.contains(a) && a
                        != *tag by {
                        if after.contains(a) {
                            let k = choose|k: int| 0 <= k < after.len() && after[k] == a;
                            if k < i {
                                assert(before[k] == a);
                            } else {
                                assert(before[k + 1] == a);
                            }
                        }
                        if before.contains(a) && a != *tag {
                            let k = choose|k: int| 0 <= k < before.len() && before[k] == a;
                            if k < i {
                                assert(after[k] == a);
                            } else {
                                assert(k != i);
                                assert(after[k - 1] == a);
                            }
                        }
                    }
                    assert(after.to_set() =~= before.to_set().remove(*tag));
                    assert forall|x: int, y: int| 0 <= x < after.len() && 0 <= y < after.len() && x
                        != y implies after[x] != after[y] by {
                        let bx = if x < i { x } else { x + 1 };
                        let by = if y < i { y } else { y + 1 };
                        assert(after[x] == before[bx]);
                        assert(after[y] == before[by]);
                    }
                    assert(before.contains(*tag));
                }
                self.tags = tags;
                return true;
            }
            i = i + 1;
        }
        proof {
            assert(before.to_set() =~= before.to_set().remove(*tag));
        }
        false
    }

    /// Retrieve the registry the task's tags come from.
    pub fn templates(&self) -> (r: Rc<Templates>)
        ensures
            r == self.registry(),
    {
        share(&self.templates)
    }
}

/// Where `to` puts a task in `s`: at the position of its task, or just
/// after it.
pub open spec fn target_index(s: Seq<TaskView>, to: Target) -> int {
    match to {
        Target::Before(id) => position_of(s, id),
        Target::After(id) => position_of(s, id) + 1,
    }
}

/// `s` with the task at position `from` taken out and put back at the spot
/// `to`.
pub open spec fn moved(s: Seq<TaskView>, from: int, to: Target) -> Seq<TaskView> {
    let rest = s.remove(from);
    rest.insert(target_index(rest, to), s[from])
}

/// Where an added task goes in `s`: just after `after`, or at the end.
pub open spec fn add_index(s: Seq<TaskView>, after: Option<Id>) -> int {
    match after {
        Some(id) => target_index(s, Target::After(id)),
        None => s.len() as int,
    }
}

/// Insert `task` at the spot that `target` describes, or append it; return
/// the task's identity.
fn add_task(tasks: &mut Db, task: Task, target: Option<Target>) -> (r: Id)
    requires
        ids_unique(old(tasks)@),
        !contains_id(old(tasks)@, task@.id),
        target matches Some(t) ==> contains_id(old(tasks)@, t.task_id()),
    ensures
        r == task@.id,
        ids_unique(final(tasks)@),
        final(tasks)@ == old(tasks)@.insert(
            match target {
                Some(t) => target_index(old(tasks)@, t),
                None => old(tasks)@.len() as int,
            },
            task@,
        ),
{
    let id = task.id();
    match target {
        Some(target) => {
            let idx = match tasks.find(target.task()) {
                Some(idx) => idx,
                None => {
                    proof {
                        assert(false);
                    }
                    0
                },
            };
            let idx = match target {
                Target::Before(_) => idx,
                Target::After(_) => idx + 1,
            };
            tasks.insert(idx, task);
        },
        None => {
            tasks.push(task);
            proof {
                assert(old(tasks)@.push(task@) =~= old(tasks)@.insert(old(tasks)@.len() as int, task@));
            }
        },
    }
    id
}

/// Remove the task with identity `id`; return it and the position it held.
fn remove_task(tasks: &mut Db, id: Id) -> (r: (Task, usize))
    requires
        ids_unique(old(tasks)@),
        contains_id(old(tasks)@, id),
    ensures
        r.1 == position_of(old(tasks)@, id),
        r.1 < old(tasks)@.len(),
        r.0@ == old(tasks)@[r.1 as int],
        final(tasks)@ == old(tasks)@.remove(r.1 as int),
        ids_unique(final(tasks)@),
        !contains_id(final(tasks)@, id),
{
    let idx = match tasks.find(id) {
        Some(idx) => idx,
        None => {
            proof {
                assert(false);
            }
            0
        },
    };
    let task = tasks.remove(idx);
    (task, idx)
}

/// Overwrite the content of the task with identity `id` with that of
/// `other`; return a snapshot of what it held before.
fn update_task(tasks: &mut Db, id: Id, other: Task) -> (r: Task)
    requires
        ids_unique(old(tasks)@),
        contains_id(old(tasks)@, id),
    ensures
        r@ == old(tasks)@[position_of(old(tasks)@, id)],
        final(tasks)@ == old(tasks)@.update(
            position_of(old(tasks)@, id),
            TaskView { id, ..other@ },
        ),
        ids_unique(final(tasks)@),
{
    let idx = match tasks.find(id) {
        Some(idx) => idx,
        None => {
            proof {
                assert(false);
            }
            0
        },
    };
    tasks.update(idx, other)
}

/// The spot a task moves to: just before or just after another task.
#[derive(Clone, Copy, Debug, PartialEq, Eq, Structural)]
pub enum Target {
    /// The spot before the given task.
    Before(Id),
    /// The spot after the given task.
    After(Id),
}

impl Target {
    /// The task that the spot is relative to.
    pub open spec fn task_id(self) -> Id {
        match self {
            Target::Before(id) => id,
            Target::After(id) => id,
        }
    }

    /// Retrieve the task that the spot is relative to.
    pub fn task(&self) -> (r: Id)
        ensures
            r == self.task_id(),
    {
        match self {
            Target::Before(id) => *id,
            Target::After(id) => *id,
        }
    }
}

/// A reversible change of the store. Each variant holds what it needs to
/// apply itself, and slots that `exec` fills with what `undo` needs.
#[derive(Debug)]
pub enum TaskOp {
    /// Add `task`, just after `after` or at the end.
    Add { task: Task, after: Option<Id> },
    /// Remove the task `task`; `exec` records its position and content.
    Remove { task: Id, removed: Option<(usize, Task)> },
    /// Overwrite the content of a task; `exec` records what it held.
    Update { updated: (Id, Task), before: Option<Task> },
    /// Move the task at position `from` to the spot `to`; `exec` records
    /// the moved task.
    Move { from: usize, to: Target, task: Option<Id> },
}

impl TaskOp {
    /// Whether `exec` can apply the operation to a store holding `s`.
    pub open spec fn can_exec(self, s: Seq<TaskView>) -> bool {
        &&& ids_unique(s)
        &&& match self {
            TaskOp::Add { task, after } => !contains_id(s, task@.id) && (after matches Some(a)
                ==> contains_id(s, a)),
            TaskOp::Remove { task, .. } => contains_id(s, task),
            TaskOp::Update { updated, .. } => contains_id(s, updated.0),
            TaskOp::Move { from, to, .. } => from < s.len() && contains_id(s, to.task_id())
                && s[from as int].id != to.task_id(),
        }
    }

    /// The store that `exec` turns `s` into.
    pub open spec fn forward(self, s: Seq<TaskView>) -> Seq<TaskView> {
        match self {
            TaskOp::Add { task, after } => s.insert(add_index(s, after), task@),
            TaskOp::Remove { task, .. } => s.remove(position_of(s, task)),
            TaskOp::Update { updated, .. } => s.update(
                position_of(s, updated.0),
                TaskView { id: updated.0, ..updated.1@ },
            ),
            TaskOp::Move { from, to, .. } => moved(s, from as int, to),
        }
    }

    /// Whether `self` and `other` are the same kind of operation with the
    /// same inputs; their slots may differ.
    pub open spec fn same_request(self, other: TaskOp) -> bool {
        match (self, other) {
            (TaskOp::Add { task: a, after: x }, TaskOp::Add { task: b, after: y }) => a == b && x == y,
            (TaskOp::Remove { task: a, .. }, TaskOp::Remove { task: b, .. }) => a == b,
            (TaskOp::Update { updated: a, .. }, TaskOp::Update { updated: b, .. }) => a == b,
            (TaskOp::Move { from: f, to: x, .. }, TaskOp::Move { from: g, to: y, .. }) => f == g && x
                == y,
            _ => false,
        }
    }

    /// What `exec` returns on `s`.
    pub open spec fn exec_result(self, s: Seq<TaskView>) -> Option<Id> {
        match self {
            TaskOp::Add { task, .. } => Some(task@.id),
            TaskOp::Remove { .. } => None,
            TaskOp::Update { updated, .. } => Some(updated.0),
            TaskOp::Move { from, .. } => Some(s[from as int].id),
        }
    }

    /// Whether the slots hold what `exec` records when it applies the
    /// operation to `s`.
    pub open spec fn done_on(self, s: Seq<TaskView>) -> bool {
        &&& self.can_exec(s)
        &&& match self {
            TaskOp::Add { .. } => true,
            TaskOp::Remove { task, removed } => removed matches Some(r) && r.0 == position_of(
                s,
                task,
            ) && r.1@ == s[r.0 as int],
            TaskOp::Update { updated, before } => before matches Some(b) && b@ == s[position_of(
                s,
                updated.0,
            )],
            TaskOp::Move { from, task, .. } => task == Some(s[from as int].id),
        }
    }

    /// Whether `undo` can revert the operation on a store holding `s`.
    pub open spec fn can_undo(self, s: Seq<TaskView>) -> bool {
        &&& ids_unique(s)
        &&& match self {
            TaskOp::Add { task, .. } => contains_id(s, task@.id),
            TaskOp::Remove { removed, .. } => removed matches Some(r) && r.0 <= s.len()
                && !contains_id(s, r.1@.id),
            TaskOp::Update { updated, before } => before is Some && contains_id(s, updated.0),
            TaskOp::Move { from, task, .. } => task matches Some(id) && contains_id(s, id) && from
                < s.len(),
        }
    }

    /// The store that `undo` turns `s` into.
    pub open spec fn backward(self, s: Seq<TaskView>) -> Seq<TaskView> {
        match self {
            TaskOp::Add { task, .. } => s.remove(position_of(s, task@.id)),
            TaskOp::Remove { removed, .. } => match removed {
                Some(r) => s.insert(r.0 as int, r.1@),
                None => s,
            },
            TaskOp::Update { updated, before } => match before {
                Some(b) => s.update(position_of(s, updated.0), TaskView { id: updated.0, ..b@ }),
                None => s,
            },
            TaskOp::Move { from, task, .. } => match task {
                Some(id) => {
                    let p = position_of(s, id);
                    s.remove(p).insert(from as int, s[p])
                },
                None => s,
            },
        }
    }

    /// What `undo` returns once `exec` applied the operation to `s`.
    pub open spec fn undo_result_on(self, s: Seq<TaskView>) -> Option<Id> {
        match self {
            TaskOp::Add { .. } => None,
            TaskOp::Remove { task, .. } => Some(task),
            TaskOp::Update { updated, .. } => Some(updated.0),
            TaskOp::Move { from, .. } => Some(s[from as int].id),
        }
    }

    /// What `undo` returns.
    pub open spec fn undo_result(self) -> Option<Id> {
        match self {
            TaskOp::Add { .. } => None,
            TaskOp::Remove { task, .. } => Some(task),
            TaskOp::Update { updated, .. } => Some(updated.0),
            TaskOp::Move { task, .. } => task,
        }
    }

    /// An operation adding `task`, just after `after` or at the end.
    pub fn add(task: Task, after: Option<Id>) -> (r: Self)
        ensures
            r == (TaskOp::Add { task, after }),
    {
        TaskOp::Add { task, after }
    }

    /// An operation removing the task `task`.
    pub fn remove(task: Id) -> (r: Self)
        ensures
            r == (TaskOp::Remove { task, removed: None }),
    {
        TaskOp::Remove { task, removed: None }
    }

    /// An operation overwriting the content of the task `task` with that of
    /// `updated`.
    pub fn update(task: Id, updated: Task) -> (r: Self)
        ensures
            r == (TaskOp::Update { updated: (task, updated), before: None }),
    {
        TaskOp::Update { updated: (task, updated), before: None }
    }

    /// An operation moving the task at position `from` to the spot `to`.
    pub fn move_(from: usize, to: Target) -> (r: Self)
        ensures
            r == (TaskOp::Move { from, to, task: None }),
    {
        TaskOp::Move { from, to, task: None }
    }

    /// Apply the operation to `tasks`, recording in the slots what `undo`
    /// will need.
    pub fn exec(&mut self, tasks: &mut Db) -> (r: Option<Id>)
        requires
            old(self).can_exec(old(tasks)@),
        ensures
            final(tasks)@ == old(self).forward(old(tasks)@),
            final(tasks)@ == final(self).forward(old(tasks)@),
            final(self).done_on(old(tasks)@),
            r == old(self).exec_result(old(tasks)@),
            r == final(self).exec_result(old(tasks)@),
            final(self).undo_result() == old(self).undo_result_on(old(tasks)@),
            final(self).same_request(*old(self)),
            ids_unique(final(tasks)@),
    {
        match self {
            TaskOp::Add { task, after } => {
                let target = match after {
                    Some(a) => Some(Target::After(*a)),
                    None => None,
                };
                let added = add_task(tasks, task.snapshot(), target);
                Some(added)
            },
            TaskOp::Remove { task, removed } => {
                let (t, idx) = remove_task(tasks, *task);
                *removed = Some((idx, t));
                None
            },
            TaskOp::Update { updated, before } => {
                let b = update_task(tasks, updated.0, updated.1.snapshot());
                *before = Some(b);
                Some(updated.0)
            },
            TaskOp::Move { from, to, task } => {
                let moved = tasks.remove(*from);
                proof {
                    lemma_remove_keeps(old(tasks)@, *from as int, to.task_id());
                }
                let id = moved.id();
                *task = Some(id);
                add_task(tasks, moved, Some(*to));
                Some(id)
            },
        }
    }

    /// Revert the operation on `tasks`, using what `exec` recorded.
    pub fn undo(&self, tasks: &mut Db) -> (r: Option<Id>)
        requires
            self.can_undo(old(tasks)@),
        ensures
            final(tasks)@ == self.backward(old(tasks)@),
            r == self.undo_result(),
            ids_unique(final(tasks)@),
    {
        match self {
            TaskOp::Add { task, .. } => {
                remove_task(tasks, task.id());
                None
            },
            TaskOp::Remove { task, removed } => {
                if let Some((idx, t)) = removed {
                    tasks.insert(*idx, t.snapshot());
                }
                Some(*task)
            },
            TaskOp::Update { updated, before } => {
                if let Some(b) = before {
                    update_task(tasks, updated.0, b.snapshot());
                }
                Some(updated.0)
            },
            TaskOp::Move { from, task, .. } => {
                if let Some(id) = task {
                    let (t, _idx) = remove_task(tasks, *id);
                    tasks.insert(*from, t);
                }
                *task
            },
        }
    }

    /// Undoing an operation that was applied to `s` gives back `s`.
    pub proof fn lemma_undo_inverts(self, s: Seq<TaskView>)
        requires
            self.done_on(s),
        ensures
            ids_unique(self.forward(s)),
            self.can_undo(self.forward(s)),
            self.backward(self.forward(s)) == s,
    {
        match self {
            TaskOp::Add { task, after } => lemma_add_inverts(s, task@, after),
            TaskOp::Remove { task, .. } => lemma_remove_inverts(s, task),
            TaskOp::Update { updated, before } => lemma_update_inverts(
                s,
                updated.0,
                TaskView { id: updated.0, ..updated.1@ },
                before.unwrap()@,
            ),
            TaskOp::Move { from, to, .. } => lemma_move_inverts(s, from as int, to),
        }
    }
}

proof fn lemma_add_inverts(s: Seq<TaskView>, t: TaskView, after: Option<Id>)
    requires
        ids_unique(s),
        !contains_id(s, t.id),
        after matches Some(a) ==> contains_id(s, a),
    ensures
        0 <= add_index(s, after) <= s.len(),
        ids_unique(s.insert(add_index(s, after), t)),
        contains_id(s.insert(add_index(s, after), t), t.id),
        s.insert(add_index(s, after), t).remove(
            position_of(s.insert(add_index(s, after), t), t.id),
        ) == s,
{
    let i = add_index(s, after);
    if let Some(a) = after {
        let k = choose|k: int| 0 <= k < s.len() && (#[trigger] s[k]).id == a;
        lemma_position_of(s, k);
    }
    let post = s.insert(i, t);
    lemma_insert_unique(s, i, t);
    lemma_position_of(post, i);
    assert(post.remove(i) =~= s);
}

proof fn lemma_remove_inverts(s: Seq<TaskView>, id: Id)
    requires
        ids_unique(s),
        contains_id(s, id),
    ensures
        0 <= position_of(s, id) < s.len(),
        ids_unique(s.remove(position_of(s, id))),
        !contains_id(s.remove(position_of(s, id)), s[position_of(s, id)].id),
        s.remove(position_of(s, id)).insert(position_of(s, id), s[position_of(s, id)]) == s,
{
    let p = position_of(s, id);
    lemma_remove_unique(s, p);
    assert(s.remove(p).insert(p, s[p]) =~= s);
}

proof fn lemma_update_inverts(s: Seq<TaskView>, id: Id, t: TaskView, b: TaskView)
    requires
        ids_unique(s),
        contains_id(s, id),
        t.id == id,
        b == s[position_of(s, id)],
    ensures
        ids_unique(s.update(position_of(s, id), t)),
        contains_id(s.update(position_of(s, id), t), id),
        s.update(position_of(s, id), t).update(
            position_of(s.update(position_of(s, id), t), id),
            TaskView { id, ..b },
        ) == s,
{
    let p = position_of(s, id);
    let post = s.update(p, t);
    lemma_update_unique(s, p, t);
    lemma_position_of(post, p);
    assert(post.update(p, TaskView { id, ..b }) =~= s);
}

proof fn lemma_move_inverts(s: Seq<TaskView>, from: int, to: Target)
    requires
        ids_unique(s),
        0 <= from < s.len(),
        contains_id(s, to.task_id()),
        s[from].id != to.task_id(),
    ensures
        ({
            let rest = s.remove(from);
            let post = rest.insert(target_index(rest, to), s[from]);
            &&& 0 <= target_index(rest, to) <= rest.len()
            &&& ids_unique(post)
            &&& contains_id(post, s[from].id)
            &&& post.remove(position_of(post, s[from].id)).insert(
                from,
                post[position_of(post, s[from].id)],
            ) == s
        }),
{
    let rest = s.remove(from);
    let x = s[from];
    lemma_remove_unique(s, from);
    let k = choose|k: int| 0 <= k < s.len() && (#[trigger] s[k]).id == to.task_id();
    let rk = if k < from { k } else { k - 1 };
    assert(rest[rk] == s[if rk < from { rk } else { rk + 1 }]);
    lemma_position_of(rest, rk);
    let t = target_index(rest, to);
    let post = rest.insert(t, x);
    lemma_insert_unique(rest, t, x);
    lemma_position_of(post, t);
    assert(post.remove(t) =~= rest);
    assert(rest.insert(from, x) =~= s);
}

/// Inserting a task whose identity is absent keeps identities unique.
proof fn lemma_insert_unique(s: Seq<TaskView>, i: int, t: TaskView)
    requires
        ids_unique(s),
        0 <= i <= s.len(),
        !contains_id(s, t.id),
    ensures
        ids_unique(s.insert(i, t)),
        s.insert(i, t)[i] == t,
{
    let r = s.insert(i, t);
    assert forall|a: int, b: int| 0 <= a < r.len() && 0 <= b < r.len() && a != b implies (#[trigger] r[
        a]).id != (#[trigger] r[b]).id by {
        let oa = if a < i { a } else { a - 1 };
        let ob = if b < i { b } else { b - 1 };
        if a != i && b != i {
            assert(r[a] == s[oa]);
            assert(r[b] == s[ob]);
        } else if a == i {
            assert(r[b] == s[ob]);
        } else {
            assert(r[a] == s[oa]);
        }
    }
}

/// Removing a task keeps identities unique, and its identity is gone.
proof fn lemma_remove_unique(s: Seq<TaskView>, i: int)
    requires
        ids_unique(s),
        0 <= i < s.len(),
    ensures
        ids_unique(s.remove(i)),
        !contains_id(s.remove(i), s[i].id),
{
    let r = s.remove(i);
    assert forall|a: int, b: int| 0 <= a < r.len() && 0 <= b < r.len() && a != b implies (#[trigger] r[
        a]).id != (#[trigger] r[b]).id by {
        let oa = if a < i { a } else { a + 1 };
        let ob = if b < i { b } else { b + 1 };
        assert(r[a] == s[oa]);
        assert(r[b] == s[ob]);
    }
    if contains_id(r, s[i].id) {
        let k = choose|k: int| 0 <= k < r.len() && (#[trigger] r[k]).id == s[i].id;
        let ok = if k < i { k } else { k + 1 };
        assert(r[k] == s[ok]);
    }
}

/// Removing a task keeps every other identity.
proof fn lemma_remove_keeps(s: Seq<TaskView>, i: int, id: Id)
    requires
        0 <= i < s.len(),
        contains_id(s, id),
        s[i].id != id,
    ensures
        contains_id(s.remove(i), id),
{
    let k = choose|k: int| 0 <= k < s.len() && (#[trigger] s[k]).id == id;
    let rk = if k < i { k } else { k - 1 };
    assert(s.remove(i)[rk] == s[k]);
}

/// Overwriting a task's content under the same identity keeps identities
/// unique.
proof fn lemma_update_unique(s: Seq<TaskView>, i: int, t: TaskView)
    requires
        ids_unique(s),
        0 <= i < s.len(),
        t.id == s[i].id,
    ensures
        ids_unique(s.update(i, t)),
{
    let r = s.update(i, t);
    assert forall|a: int, b: int| 0 <= a < r.len() && 0 <= b < r.len() && a != b implies (#[trigger] r[
        a]).id != (#[trigger] r[b]).id by {
        assert(r[a].id == s[a].id);
        assert(r[b].id == s[b].id);
    }
}

/// The number of operations that can be undone in a row.
pub const MAX_UNDO_STEP_COUNT: usize = 64;

/// Every identity of `s` is one of `base` or is below `n`.
proof fn lemma_ids_below_from(base: State, s: State, n: nat)
    requires
        ids_below(base, n),
        forall|i: int| 0 <= i < s.len() ==> contains_id(base, #[trigger] s[i].id) || s[i].id@ < n,
    ensures
        ids_below(s, n),
{
    assert forall|i: int| 0 <= i < s.len() implies (#[trigger] s[i]).id@ < n by {
        if contains_id(base, s[i].id) {
            let k = choose|k: int| 0 <= k < base.len() && (#[trigger] base[k]).id == s[i].id;
            assert(base[k].id@ < n);
        }
    }
}

/// Whether the `k`-th record can be loaded after the ones before it: its
/// tags name templates of `templates` and no earlier record has its
/// identifier.
pub open spec fn record_ok(records: Seq<(SerTaskId, SerTask)>, k: int, templates: Templates) -> bool {
    &&& all_tags_valid(records[k].1.tags@, templates)
    &&& forall|j: int| 0 <= j < k ==> (#[trigger] records[j]).0@ != records[k].0@
}

/// Whether the store `s` holds the tasks of `records`, in their order.
pub open spec fn holds_records(s: State, records: Seq<(SerTaskId, SerTask)>) -> bool {
    &&& s.len() == records.len()
    &&& forall|k: int|
        0 <= k < s.len() ==> (#[trigger] s[k]).id@ == records[k].0@ && s[k].summary
            == records[k].1.summary@ && s[k].tags == tags_of(records[k].1.tags@)
}

/// Whether some tag of `set` comes from the template with identifier `id`.
pub open spec fn names_tag_in(set: Set<Tag>, id: usize) -> bool {
    exists|t: Tag| set.contains(t) && t.template_id() == id
}

/// Whether `tags` lists each tag of `set` once, by template identifier, in
/// some order.
pub open spec fn lists_tags(tags: Seq<SerTag>, set: Set<Tag>) -> bool {
    &&& tags_of(tags) == set
    &&& tags.len() == set.len()
    &&& forall|k: int| 0 <= k < tags.len() ==> names_tag_in(set, (#[trigger] tags[k]).id@)
    &&& forall|i: int, j: int|
        0 <= i < tags.len() && 0 <= j < tags.len() && i != j ==> (#[trigger] tags[i]).id@ != (
        #[trigger] tags[j]).id@
}

/// Whether `e` is the error for the first record that cannot be loaded,
/// the `k`-th.
pub open spec fn load_error(
    records: Seq<(SerTaskId, SerTask)>,
    templates: Templates,
    k: int,
    e: LoadError,
) -> bool {
    &&& 0 <= k < records.len()
    &&& forall|j: int| 0 <= j < k ==> record_ok(records, j, templates)
    &&& !record_ok(records, k, templates)
    &&& if all_tags_valid(records[k].1.tags@, templates) {
        e == LoadError::DuplicateTaskId(records[k].0@)
    } else {
        e matches LoadError::InvalidTagId(x) && first_invalid_tag(records[k].1.tags@, templates, x)
    }
}

/// The tasks and the log of operations on them.
pub struct Tasks {
    templates: Rc<Templates>,
    tasks: Db,
    operations: Ops,
    ids: Ids,
}

impl View for Tasks {
    type V = History;

    closed spec fn view(&self) -> History {
        self.operations.history(self.tasks@)
    }
}

impl Tasks {
    /// Whether the log describes the store, keeps at most
    /// `MAX_UNDO_STEP_COUNT` operations, and every identity in the history
    /// is below the next one to be issued.
    pub closed spec fn wf(&self) -> bool {
        &&& self.operations.inv(self.tasks@)
        &&& self.operations.depth() == MAX_UNDO_STEP_COUNT
        &&& history_ids_below(self@, self.ids.next())
    }

    /// The identity that the next added task gets.
    pub closed spec fn next_id(&self) -> nat {
        self.ids.next()
    }

    /// The operations that can be undone, the next one last.
    pub closed spec fn undo_ops(&self) -> Seq<TaskOp> {
        self.operations.undo_ops()
    }

    /// The operations that can be redone, the next one last.
    pub closed spec fn redo_ops(&self) -> Seq<TaskOp> {
        self.operations.redo_ops()
    }

    /// The registry that tags come from.
    pub closed spec fn registry(&self) -> Rc<Templates> {
        self.templates
    }

    /// Load the tasks of `tasks`, in order, with tags from `templates`; the
    /// history starts empty.
    pub fn with_serde(tasks: SerTasks, templates: Rc<Templates>) -> (r: Result<Self, LoadError>)
        ensures
            r is Ok <==> forall|k: int| 0 <= k < tasks.0@.len() ==> record_ok(tasks.0@, k, *templates),
            r matches Ok(t) ==> t.wf() && t@ == History::fresh(t@.present) && holds_records(
                t@.present,
                tasks.0@,
            ) && t.registry() == templates && (forall|k: int|
                0 <= k < tasks.0@.len() ==> (#[trigger] tasks.0@[k]).0@ < t.next_id()) && (if tasks.0@.len()
                == 0 {
                t.next_id() == 1
            } else {
                exists|k: int| 0 <= k < tasks.0@.len() && (#[trigger] tasks.0@[k]).0@ + 1 == t.next_id()
            }),
            r matches Err(e) ==> exists|k: int| load_error(tasks.0@, *templates, k, e),
    {
        let ghost all = tasks.0@;
        let len = tasks.0.len();
        let mut db = Db::from_iter(Vec::new());
        let mut max: usize = 0;
        proof {
            assert(db@ =~= Seq::<TaskView>::empty());
        }
        for record in it: tasks.0.into_iter()
            invariant
                it.seq() == all,
                all.len() == len,
                db@.len() == it.index(),
                ids_unique(db@),
                holds_records(db@, all.subrange(0, it.index() as int)),
                forall|k: int| 0 <= k < it.index() ==> record_ok(all, k, *templates),
                forall|k: int| 0 <= k < it.index() ==> (#[trigger] all[k]).0@ <= max,
                it.index() == 0 ==> max == 0,
                it.index() > 0 ==> exists|k: int| 0 <= k < it.index() && (#[trigger] all[k]).0@ == max,
        {
            let ghost k = it.index() as int;
            let (id, task) = record;
            let raw = id.get();
            let t = match Task::with_serde(id, task, share(&templates)) {
                Ok(t) => t,
                Err(e) => {
                    proof {
                        assert(!all_tags_valid(all[k].1.tags@, *templates));
                        assert(load_error(all, *templates, k, e));
                    }
                    return Err(e);
                },
            };
            let ghost prefix = all.subrange(0, k);
            match db.find(t.id()) {
                Some(j) => {
                    proof {
                        assert(db@[j as int].id@ == raw);
                        assert(prefix[j as int] == all[j as int]);
                        assert(all[j as int].0@ == all[k].0@);
                        assert(!record_ok(all, k, *templates));
                        assert(load_error(all, *templates, k, LoadError::DuplicateTaskId(raw)));
                    }
                    return Err(LoadError::DuplicateTaskId(raw));
                },
                None => {},
            }
            proof {
                assert forall|j: int| 0 <= j < k implies (#[trigger] all[j]).0@ != all[k].0@ by {
                    assert(prefix[j] == all[j]);
                    assert(db@[j].id@ == all[j].0@);
                    Id::lemma_view_injective(db@[j].id, t@.id);
                    if all[j].0@ == all[k].0@ {
                        assert(contains_id(db@, t@.id));
                    }
                }
                assert(record_ok(all, k, *templates));
            }
            db.push(t);
            if raw > max {
                max = raw;
            }
            proof {
                if k > 0 && max != raw {
                    let w = choose|w: int| 0 <= w < k && (#[trigger] all[w]).0@ == max;
                    assert(0 <= w < k + 1 && all[w].0@ == max);
                } else {
                    assert(all[k].0@ == max);
                }
            }
            proof {
                let next = all.subrange(0, k + 1);
                assert forall|i: int| 0 <= i < db@.len() implies (#[trigger] db@[i]).id@ == next[i].0@
                    && db@[i].summary == next[i].1.summary@ && db@[i].tags == tags_of(
                    next[i].1.tags@,
                ) by {
                    if i < k {
                        assert(next[i] == prefix[i]);
                    }
                }
            }
        }
        proof {
            assert(all.subrange(0, len as int) =~= all);
            assert forall|i: int| 0 <= i < db@.len() implies (#[trigger] db@[i]).id@ < max as nat + 1 by {
                assert(db@[i].id@ == all[i].0@);
            }
        }
        let operations = Ops::new(MAX_UNDO_STEP_COUNT);
        let ids = Ids::above(max);
        let r = Tasks { templates, tasks: db, operations, ids };
        proof {
            assert(r.operations.inv(r.tasks@));
            assert(r@.past =~= Seq::<State>::empty());
            assert(r@.future =~= Seq::<State>::empty());
        }
        Ok(r)
    }

    /// Load tasks without tags, numbered 1, 2, 3, ... in order, with an
    /// empty registry.
    pub fn with_serde_tasks(tasks: Vec<SerTask>) -> (r: Result<Self, LoadError>)
        requires
            forall|k: int| 0 <= k < tasks@.len() ==> (#[trigger] tasks@[k]).tags@.len() == 0,
        ensures
            r matches Ok(t) && t.wf() && t@ == History::fresh(t@.present) && t@.present.len()
                == tasks@.len() && (forall|k: int|
                0 <= k < tasks@.len() ==> (#[trigger] t@.present[k]).id@ == k + 1 && t@.present[k].summary
                    == tasks@[k].summary@ && t@.present[k].tags == Set::<Tag>::empty()) && t.next_id()
                == tasks@.len() + 1 && t.registry()@ == Seq::<SerTemplate>::empty(),
    {
        let ghost input = tasks@;
        let records = SerTasks::from_task_vec(tasks);
        let templates = Rc::new(Templates::new());
        proof {
            let rs = records.0@;
            assert forall|k: int| 0 <= k < rs.len() implies record_ok(rs, k, *templates) by {
                assert(rs[k].1 == input[k]);
                assert forall|j: int| 0 <= j < k implies (#[trigger] rs[j]).0@ != rs[k].0@ by {
                }
            }
        }
        let r = Self::with_serde(records, templates);
        proof {
            if let Ok(t) = &r {
                assert forall|k: int| 0 <= k < input.len() implies (#[trigger] t@.present[k]).id@ == k + 1
                    && t@.present[k].summary == input[k].summary@ && t@.present[k].tags == Set::<
                    Tag,
                >::empty() by {
                    assert(records.0@[k].1 == input[k]);
                    assert(tags_of(input[k].tags@) =~= Set::<Tag>::empty());
                }
                if input.len() > 0 {
                    let k = choose|k: int| 0 <= k < records.0@.len() && (#[trigger] records.0@[k]).0@ + 1 == t.next_id();
                    assert forall|j: int| 0 <= j < records.0@.len() implies (#[trigger] records.0@[j]).0@
                        <= input.len() by {}
                    let last = input.len() - 1;
                    assert(records.0@[last].0@ < t.next_id());
                }
            }
        }
        r
    }

    /// Convert the tasks into their persisted shape, in display order.
    pub fn to_serde(&self) -> (r: SerTasks)
        ensures
            holds_records(self@.present, r.0@),
            forall|k: int|
                0 <= k < r.0@.len() ==> lists_tags(
                    (#[trigger] r.0@[k]).1.tags@,
                    self@.present[k].tags,
                ),
    {
        let tasks = self.tasks.iter();
        let mut records: Vec<(SerTaskId, SerTask)> = Vec::new();
        let mut i: usize = 0;
        while i < tasks.len()
            invariant
                views(tasks@) == self@.present,
                i <= tasks@.len(),
                records@.len() == i,
                forall|k: int|
                    0 <= k < i ==> (#[trigger] records@[k]).0@ == self@.present[k].id@
                        && records@[k].1.summary@ == self@.present[k].summary && tags_of(
                        records@[k].1.tags@,
                    ) == self@.present[k].tags,
                forall|k: int|
                    0 <= k < i ==> lists_tags(
                        (#[trigger] records@[k]).1.tags@,
                        self@.present[k].tags,
                    ),
            decreases tasks@.len() - i,
        {
            records.push(tasks[i].to_serde());
            i = i + 1;
        }
        SerTasks(records)
    }

    /// What well-formedness gives to callers.
    pub proof fn lemma_wf(&self)
        requires
            self.wf(),
        ensures
            ids_unique(self@.present),
            self@.past.len() == self.undo_ops().len(),
            self@.future.len() == self.redo_ops().len(),
            self@.past.len() + self@.future.len() <= MAX_UNDO_STEP_COUNT,
            history_ids_below(self@, self.next_id()),
    {
        self.operations.lemma_inv(self.tasks@);
    }

    /// Whether there is an identity left for another task.
    pub fn can_add(&self) -> (r: bool)
        ensures
            r == (self.next_id() < usize::MAX),
    {
        self.ids.can_allocate()
    }

    /// Retrieve the tasks in display order.
    pub fn iter(&self) -> (r: &[Task])
        ensures
            views(r@) == self@.present,
    {
        self.tasks.iter()
    }

    /// The task with identity `task`, if the store holds it.
    pub fn get(&self, task: Id) -> (r: Option<&Task>)
        requires
            self.wf(),
        ensures
            r is Some <==> contains_id(self@.present, task),
            r matches Some(t) ==> t@ == self@.present[position_of(self@.present, task)]
                && t@.id == task,
    {
        proof {
            self.lemma_wf();
        }
        match self.tasks.find(task) {
            Some(idx) => self.tasks.get(idx),
            None => None,
        }
    }

    /// Record `op`, which the facade built to satisfy `can_exec`, and apply
    /// it.
    fn exec(&mut self, op: TaskOp) -> (r: Option<Id>)
        requires
            old(self).wf(),
            op.can_exec(old(self)@.present),
            ids_below(op.forward(old(self)@.present), old(self).next_id()),
        ensures
            final(self).wf(),
            final(self)@ == old(self)@.exec(
                op.forward(old(self)@.present),
                MAX_UNDO_STEP_COUNT as nat,
            ),
            r == op.exec_result(old(self)@.present),
            final(self).undo_ops().last().undo_result() == op.undo_result_on(old(self)@.present),
            final(self).next_id() == old(self).next_id(),
            final(self).registry() == old(self).registry(),
    {
        proof {
            lemma_ids_below_kept(
                self@,
                self.ids.next(),
                self.ids.next(),
                op.forward(self@.present),
                MAX_UNDO_STEP_COUNT as nat,
            );
        }
        self.operations.exec(op, &mut self.tasks)
    }

    /// Add a task with the given summary and tags, just after `after` or
    /// at the end; return its identity, which no task had before.
    pub fn add(&mut self, summary: String, tags: Vec<Tag>, after: Option<Id>) -> (r: Id)
        requires
            old(self).wf(),
            old(self).next_id() < usize::MAX,
            after matches Some(a) ==> contains_id(old(self)@.present, a),
        ensures
            final(self).wf(),
            r@ == old(self).next_id(),
            final(self).next_id() == old(self).next_id() + 1,
            !contains_id(old(self)@.present, r),
            final(self)@ == old(self)@.exec(
                old(self)@.present.insert(
                    add_index(old(self)@.present, after),
                    TaskView { id: r, summary: summary@, tags: tags@.to_set() },
                ),
                MAX_UNDO_STEP_COUNT as nat,
            ),
            final(self).undo_ops().last().undo_result() == None::<Id>,
            tags@.len() == 0 ==> tags@.to_set() == Set::<Tag>::empty(),
            final(self).registry() == old(self).registry(),
    {
        proof {
            self.lemma_wf();
            assert(tags@.len() == 0 ==> tags@.to_set() =~= Set::<Tag>::empty());
        }
        let ghost h = self@;
        let task = Task::with_summary_and_tags(&mut self.ids, summary, tags, share(&self.templates));
        let id = task.id();
        proof {
            lemma_ids_below_kept(h, old(self).ids.next(), self.ids.next(), h.present, 0);
            if contains_id(h.present, id) {
                let k = choose|k: int| 0 <= k < h.present.len() && (#[trigger] h.present[k]).id == id;
                assert(h.present[k].id@ < old(self).ids.next());
            }
            let i = add_index(h.present, after);
            lemma_add_inverts(h.present, task@, after);
            let post = h.present.insert(i, task@);
            assert forall|j: int| 0 <= j < post.len() implies contains_id(h.present, #[trigger] post[j].id)
                || post[j].id@ < self.ids.next() by {
                if j < i {
                    assert(post[j] == h.present[j]);
                } else if j > i {
                    assert(post[j] == h.present[j - 1]);
                }
            }
            lemma_ids_below_from(h.present, post, self.ids.next());
        }
        let op = TaskOp::add(task, after);
        self.exec(op);
        id
    }

    /// Remove the task `task`.
    pub fn remove(&mut self, task: Id)
        requires
            old(self).wf(),
            contains_id(old(self)@.present, task),
        ensures
            final(self).wf(),
            final(self)@ == old(self)@.exec(
                old(self)@.present.remove(position_of(old(self)@.present, task)),
                MAX_UNDO_STEP_COUNT as nat,
            ),
            final(self).undo_ops().last().undo_result() == Some(task),
            final(self).next_id() == old(self).next_id(),
    {
        proof {
            self.lemma_wf();
            let s = self@.present;
            let p = position_of(s, task);
            lemma_remove_inverts(s, task);
            let post = s.remove(p);
            assert forall|j: int| 0 <= j < post.len() implies contains_id(s, #[trigger] post[j].id)
                || post[j].id@ < self.ids.next() by {
                let oj = if j < p { j } else { j + 1 };
                assert(post[j] == s[oj]);
            }
            lemma_ids_below_from(s, post, self.ids.next());
        }
        self.exec(TaskOp::remove(task));
    }

    /// Overwrite the content of the task `task` with that of `updated`; the
    /// task keeps its identity and its position.
    pub fn update(&mut self, task: Id, updated: Task)
        requires
            old(self).wf(),
            contains_id(old(self)@.present, task),
        ensures
            final(self).wf(),
            final(self)@ == old(self)@.exec(
                old(self)@.present.update(
                    position_of(old(self)@.present, task),
                    TaskView { id: task, ..updated@ },
                ),
                MAX_UNDO_STEP_COUNT as nat,
            ),
            final(self).undo_ops().last().undo_result() == Some(task),
            final(self).next_id() == old(self).next_id(),
    {
        proof {
            self.lemma_wf();
            let s = self@.present;
            let p = position_of(s, task);
            let post = s.update(p, TaskView { id: task, ..updated@ });
            assert(s[p].id == task);
            assert forall|j: int| 0 <= j < post.len() implies contains_id(s, #[trigger] post[j].id)
                || post[j].id@ < self.ids.next() by {
                assert(post[j].id == s[j].id);
            }
            lemma_ids_below_from(s, post, self.ids.next());
        }
        self.exec(TaskOp::update(task, updated));
    }

    /// Move the task `to_move` to the spot `to`; nothing happens where the
    /// spot is relative to `to_move` itself.
    fn move_to(&mut self, to_move: Id, to: Target)
        requires
            old(self).wf(),
            contains_id(old(self)@.present, to_move),
            contains_id(old(self)@.present, to.task_id()),
        ensures
            final(self).wf(),
            to_move == to.task_id() ==> final(self)@ == old(self)@ && final(self).undo_ops()
                == old(self).undo_ops() && final(self).redo_ops() == old(self).redo_ops(),
            to_move != to.task_id() ==> final(self)@ == old(self)@.exec(
                moved(old(self)@.present, position_of(old(self)@.present, to_move), to),
                MAX_UNDO_STEP_COUNT as nat,
            ),
            to_move != to.task_id() ==> final(self).undo_ops().last().undo_result() == Some(to_move),
            final(self).next_id() == old(self).next_id(),
    {
        if to_move != to.task() {
            let idx = match self.tasks.find(to_move) {
                Some(idx) => idx,
                None => {
                    proof {
                        assert(false);
                    }
                    0
                },
            };
            proof {
                self.lemma_wf();
                let s = self@.present;
                lemma_move_inverts(s, idx as int, to);
                let rest = s.remove(idx as int);
                let t = target_index(rest, to);
                let post = moved(s, idx as int, to);
                assert forall|j: int| 0 <= j < post.len() implies contains_id(s, #[trigger] post[j].id)
                    || post[j].id@ < self.ids.next() by {
                    if j == t {
                        assert(post[j] == s[idx as int]);
                    } else {
                        let rj = if j < t { j } else { j - 1 };
                        assert(post[j] == rest[rj]);
                        let oj = if rj < idx { rj } else { rj + 1 };
                        assert(rest[rj] == s[oj]);
                    }
                }
                lemma_ids_below_from(s, post, self.ids.next());
            }
            self.exec(TaskOp::move_(idx, to));
        }
    }

    /// Move the task `to_move` to the spot just before `other`; nothing
    /// happens where the two are the same task.
    pub fn move_before(&mut self, to_move: Id, other: Id)
        requires
            old(self).wf(),
            contains_id(old(self)@.present, to_move),
            contains_id(old(self)@.present, other),
        ensures
            final(self).wf(),
            to_move == other ==> final(self)@ == old(self)@ && final(self).undo_ops() == old(
                self,
            ).undo_ops() && final(self).redo_ops() == old(self).redo_ops(),
            to_move != other ==> final(self)@ == old(self)@.exec(
                moved(
                    old(self)@.present,
                    position_of(old(self)@.present, to_move),
                    Target::Before(other),
                ),
                MAX_UNDO_STEP_COUNT as nat,
            ),
            to_move != other ==> final(self).undo_ops().last().undo_result() == Some(to_move),
            final(self).next_id() == old(self).next_id(),
    {
        self.move_to(to_move, Target::Before(other))
    }

    /// Move the task `to_move` to the spot just after `other`; nothing
    /// happens where the two are the same task.
    pub fn move_after(&mut self, to_move: Id, other: Id)
        requires
            old(self).wf(),
            contains_id(old(self)@.present, to_move),
            contains_id(old(self)@.present, other),
        ensures
            final(self).wf(),
            to_move == other ==> final(self)@ == old(self)@ && final(self).undo_ops() == old(
                self,
            ).undo_ops() && final(self).redo_ops() == old(self).redo_ops(),
            to_move != other ==> final(self)@ == old(self)@.exec(
                moved(
                    old(self)@.present,
                    position_of(old(self)@.present, to_move),
                    Target::After(other),
                ),
                MAX_UNDO_STEP_COUNT as nat,
            ),
            to_move != other ==> final(self).undo_ops().last().undo_result() == Some(to_move),
            final(self).next_id() == old(self).next_id(),
    {
        self.move_to(to_move, Target::After(other))
    }

    /// Undo the most recent operation that can be undone; `None` where there
    /// is none.
    pub fn undo(&mut self) -> (r: Option<Option<Id>>)
        requires
            old(self).wf(),
        ensures
            final(self).wf(),
            final(self)@ == old(self)@.undo(),
            r is None <==> old(self)@.past.len() == 0,
            r matches Some(x) ==> x == old(self).undo_ops().last().undo_result(),
            r is Some ==> final(self).redo_ops() == old(self).redo_ops().push(
                old(self).undo_ops().last(),
            ) && final(self).undo_ops() == old(self).undo_ops().drop_last(),
            r is None ==> final(self).undo_ops() == old(self).undo_ops() && final(self).redo_ops()
                == old(self).redo_ops(),
            final(self).next_id() == old(self).next_id(),
    {
        proof {
            self.lemma_wf();
            lemma_ids_below_kept(
                self@,
                self.ids.next(),
                self.ids.next(),
                self@.present,
                MAX_UNDO_STEP_COUNT as nat,
            );
        }
        self.operations.undo(&mut self.tasks)
    }

    /// Redo the most recently undone operation; `None` where there is none.
    pub fn redo(&mut self) -> (r: Option<Option<Id>>)
        requires
            old(self).wf(),
        ensures
            final(self).wf(),
            final(self)@ == old(self)@.redo(MAX_UNDO_STEP_COUNT as nat),
            r is None <==> old(self)@.future.len() == 0,
            r matches Some(x) ==> x == old(self).redo_ops().last().exec_result(old(self)@.present),
            r is Some ==> final(self).redo_ops() == old(self).redo_ops().drop_last()
                && final(self).undo_ops().last().undo_result() == old(
                self,
            ).redo_ops().last().undo_result(),
            r is None ==> final(self).undo_ops() == old(self).undo_ops() && final(self).redo_ops()
                == old(self).redo_ops(),
            final(self).next_id() == old(self).next_id(),
    {
        proof {
            self.lemma_wf();
            lemma_ids_below_kept(
                self@,
                self.ids.next(),
                self.ids.next(),
                self@.present,
                MAX_UNDO_STEP_COUNT as nat,
            );
        }
        self.operations.redo(&mut self.tasks)
    }
}

} // verus!
