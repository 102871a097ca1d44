//! The operation log: a bounded stack of operations that can be undone and
//! a stack of undone operations that can be redone.

use vstd::prelude::*;

use crate::db::ids_unique;
use crate::db::Db;
use crate::history::bounded_push;
use crate::history::History;
use crate::history::State;
use crate::id::Id;
use crate::tasks::TaskOp;

verus! {

/// The state that the `i`-th operation to undo led to.
spec fn after_past(past: Seq<State>, i: int, present: State) -> State {
    if i + 1 < past.len() {
        past[i + 1]
    } else {
        present
    }
}

/// The state that the `j`-th operation to redo applies to.
spec fn before_future(future: Seq<State>, j: int, present: State) -> State {
    if j + 1 < future.len() {
        future[j + 1]
    } else {
        present
    }
}

/// A record of the operations performed on a store, in order, with at most
/// `max_count` of them kept for undo.
pub struct Ops {
    undo: Vec<TaskOp>,
    redo: Vec<TaskOp>,
    max_count: usize,
    past: Ghost<Seq<State>>,
    future: Ghost<Seq<State>>,
}

impl Ops {
    /// The most operations kept for undo.
    pub closed spec fn depth(&self) -> nat {
        self.max_count as nat
    }

    /// The operations that can be undone, the next one last.
    pub closed spec fn undo_ops(&self) -> Seq<TaskOp> {
        self.undo@
    }

    /// The operations that can be redone, the next one last.
    pub closed spec fn redo_ops(&self) -> Seq<TaskOp> {
        self.redo@
    }

    /// The states that undo goes back to, oldest first.
    pub closed spec fn past(&self) -> Seq<State> {
        self.past@
    }

    /// The states that redo goes forward to, the next one last.
    pub closed spec fn future(&self) -> Seq<State> {
        self.future@
    }

    /// The history of a store holding `present` that this log drives.
    pub open spec fn history(&self, present: State) -> History {
        History { past: self.past(), present, future: self.future() }
    }

    /// What the invariant gives to callers: the store's identities are
    /// unique, there is one operation per state to undo or redo, and the
    /// depth bounds the two together.
    pub proof fn lemma_inv(&self, present: State)
        requires
            self.inv(present),
        ensures
            ids_unique(present),
            self.past().len() == self.undo_ops().len(),
            self.future().len() == self.redo_ops().len(),
            self.past().len() + self.future().len() <= self.depth(),
    {
    }

    /// Whether undoing each operation of the undo stack leads back from
    /// `present` through `past`.
    closed spec fn undo_inv(&self, present: State) -> bool {
        &&& self.undo@.len() == self.past@.len()
        &&& forall|i: int|
            0 <= i < self.past@.len() ==> #[trigger] self.undo@[i].done_on(self.past@[i])
                && self.undo@[i].forward(self.past@[i]) == after_past(self.past@, i, present)
    }

    /// Whether redoing each operation of the redo stack leads forward from
    /// `present` through `future`.
    closed spec fn redo_inv(&self, present: State) -> bool {
        &&& self.redo@.len() == self.future@.len()
        &&& forall|j: int|
            0 <= j < self.future@.len() ==> #[trigger] self.redo@[j].done_on(
                before_future(self.future@, j, present),
            ) && self.redo@[j].forward(before_future(self.future@, j, present)) == self.future@[j]
    }

    /// Whether the log describes how a store came to hold `present`: undoing
    /// each operation leads back through `past`, and redoing each leads
    /// forward through `future`.
    pub closed spec fn inv(&self, present: State) -> bool {
        &&& self.past@.len() + self.future@.len() <= self.max_count
        &&& ids_unique(present)
        &&& self.undo_inv(present)
        &&& self.redo_inv(present)
    }

    /// An empty log that keeps at most `max_count` operations for undo.
    pub fn new(max_count: usize) -> (r: Self)
        ensures
            r.depth() == max_count,
            r.undo_ops().len() == 0,
            r.redo_ops().len() == 0,
            forall|s: State| ids_unique(s) ==> #[trigger] r.inv(s) && r.history(s) == History::fresh(s),
    {
        Ops {
            undo: Vec::new(),
            redo: Vec::new(),
            max_count,
            past: Ghost(Seq::empty()),
            future: Ghost(Seq::empty()),
        }
    }

    /// Apply `op` to `tasks` and record it; this forgets every operation
    /// that could be redone.
    pub fn exec(&mut self, op: TaskOp, tasks: &mut Db) -> (r: Option<Id>)
        requires
            old(self).inv(old(tasks)@),
            op.can_exec(old(tasks)@),
        ensures
            final(self).inv(final(tasks)@),
            final(self).depth() == old(self).depth(),
            final(tasks)@ == op.forward(old(tasks)@),
            r == op.exec_result(old(tasks)@),
            old(self).depth() > 0 ==> final(self).undo_ops().last().undo_result() == op.undo_result_on(
                old(tasks)@,
            ),
            final(self).history(final(tasks)@) == old(self).history(old(tasks)@).exec(
                final(tasks)@,
                old(self).depth(),
            ),
            final(self).redo_ops().len() == 0,
    {
        let ghost pre = tasks@;
        let mut op = op;
        let r = op.exec(tasks);
        self.redo = Vec::new();
        self.future = Ghost(Seq::empty());
        self.push_undo(op, Ghost(pre), Ghost(tasks@));
        proof {
            op.lemma_undo_inverts(pre);
        }
        r
    }

    /// Revert the most recent operation that can be undone, if there is one,
    /// and make it the next one to redo.
    pub fn undo(&mut self, tasks: &mut Db) -> (r: Option<Option<Id>>)
        requires
            old(self).inv(old(tasks)@),
        ensures
            final(self).inv(final(tasks)@),
            final(self).depth() == old(self).depth(),
            final(self).history(final(tasks)@) == old(self).history(old(tasks)@).undo(),
            r is None <==> old(self).undo_ops().len() == 0,
            r matches Some(x) ==> x == old(self).undo_ops().last().undo_result(),
            r is Some ==> final(self).redo_ops() == old(self).redo_ops().push(
                old(self).undo_ops().last(),
            ),
            r is Some ==> final(self).undo_ops() == old(self).undo_ops().drop_last(),
            r is None ==> final(self).undo_ops() == old(self).undo_ops() && final(self).redo_ops()
                == old(self).redo_ops(),
    {
        match self.undo.pop() {
            None => None,
            Some(op) => {
                let ghost present = tasks@;
                let ghost k = self.past@.len();
                let ghost pre = self.past@.last();
                proof {
                    assert(old(self).undo@[k - 1] == op);
                    assert(old(self).undo@[k - 1].done_on(old(self).past@[k - 1]));
                    assert(after_past(old(self).past@, k - 1, present) == present);
                    op.lemma_undo_inverts(pre);
                }
                let r = op.undo(tasks);
                self.past = Ghost(self.past@.drop_last());
                let ghost old_redo = self.redo@;
                self.redo.push(op);
                self.future = Ghost(self.future@.push(present));
                proof {
                    assert(tasks@ == pre);
                    assert forall|i: int| 0 <= i < self.past@.len() implies #[trigger] self.undo@[
                        i].done_on(self.past@[i]) && self.undo@[i].forward(self.past@[i])
                        == after_past(self.past@, i, tasks@) by {
                        assert(self.undo@[i] == old(self).undo@[i]);
                        assert(old(self).undo@[i].done_on(old(self).past@[i]));
                    }
                    let m = old_redo.len();
                    assert forall|j: int| 0 <= j < self.future@.len() implies #[trigger] self.redo@[
                        j].done_on(before_future(self.future@, j, tasks@)) && self.redo@[j].forward(
                        before_future(self.future@, j, tasks@),
                    ) == self.future@[j] by {
                        if j < m {
                            assert(self.redo@[j] == old(self).redo@[j]);
                            assert(old(self).redo@[j].done_on(before_future(old(self).future@, j, present)));
                        }
                    }
                }
                Some(r)
            },
        }
    }

    /// Apply again the most recently undone operation, if there is one.
    pub fn redo(&mut self, tasks: &mut Db) -> (r: Option<Option<Id>>)
        requires
            old(self).inv(old(tasks)@),
        ensures
            final(self).inv(final(tasks)@),
            final(self).depth() == old(self).depth(),
            final(self).history(final(tasks)@) == old(self).history(old(tasks)@).redo(
                old(self).depth(),
            ),
            r is None <==> old(self).redo_ops().len() == 0,
            r matches Some(x) ==> x == old(self).redo_ops().last().exec_result(old(tasks)@),
            r is Some ==> final(self).redo_ops() == old(self).redo_ops().drop_last(),
            r is Some ==> final(self).undo_ops().last().undo_result() == old(
                self,
            ).redo_ops().last().undo_result(),
            r is None ==> final(self).undo_ops() == old(self).undo_ops() && final(self).redo_ops()
                == old(self).redo_ops(),
    {
        match self.redo.pop() {
            None => None,
            Some(op) => {
                let ghost pre = tasks@;
                let ghost m = self.future@.len();
                proof {
                    assert(old(self).redo@[m - 1] == op);
                    assert(before_future(old(self).future@, m - 1, pre) == pre);
                    assert(old(self).redo@[m - 1].done_on(before_future(old(self).future@, m - 1, pre)));
                }
                let ghost op0 = op;
                self.future = Ghost(self.future@.drop_last());
                let mut op = op;
                let r = op.exec(tasks);
                proof {
                    op.lemma_undo_inverts(pre);
                    assert forall|i: int| 0 <= i < self.past@.len() implies #[trigger] self.undo@[
                        i].done_on(self.past@[i]) && self.undo@[i].forward(self.past@[i])
                        == after_past(self.past@, i, pre) by {
                        assert(old(self).undo@[i].done_on(old(self).past@[i]));
                    }
                }
                self.push_undo(op, Ghost(pre), Ghost(tasks@));
                proof {
                    assert forall|j: int| 0 <= j < self.future@.len() implies #[trigger] self.redo@[
                        j].done_on(before_future(self.future@, j, tasks@)) && self.redo@[j].forward(
                        before_future(self.future@, j, tasks@),
                    ) == self.future@[j] by {
                        assert(self.redo@[j] == old(self).redo@[j]);
                        assert(old(self).redo@[j].done_on(before_future(old(self).future@, j, pre)));
                        if j + 1 == m - 1 {
                            assert(tasks@ == op0.forward(pre));
                            assert(before_future(self.future@, j, tasks@) == tasks@);
                            assert(before_future(old(self).future@, j, pre) == old(self).future@[m - 1]);
                        }
                    }
                }
                Some(r)
            },
        }
    }

    /// Put `op`, which took the store from `pre` to `post`, on top of the
    /// undo stack, dropping the oldest entry where there are too many.
    fn push_undo(&mut self, op: TaskOp, pre: Ghost<State>, post: Ghost<State>)
        requires
            old(self).undo_inv(pre@),
            op.done_on(pre@),
            op.forward(pre@) == post@,
        ensures
            final(self).undo_inv(post@),
            final(self).max_count == old(self).max_count,
            final(self).past@ == bounded_push(old(self).past@, pre@, old(self).max_count as nat),
            final(self).future@ == old(self).future@,
            final(self).redo@ == old(self).redo@,
            final(self).undo@.len() > 0 ==> final(self).undo@.last() == op,
    {
        proof {
            op.lemma_undo_inverts(pre@);
        }
        let ghost old_past = self.past@;
        let ghost old_undo = self.undo@;
        self.undo.push(op);
        self.past = Ghost(self.past@.push(pre@));
        if self.undo.len() > self.max_count {
            self.undo.remove(0);
            self.past = Ghost(self.past@.drop_first());
        }
        proof {
            let k = old_past.len();
            let shift: int = if k + 1 > self.max_count { 1 } else { 0 };
            assert forall|i: int| 0 <= i < self.past@.len() implies #[trigger] self.undo@[i].done_on(
                self.past@[i],
            ) && self.undo@[i].forward(self.past@[i]) == after_past(self.past@, i, post@) by {
                let oi = i + shift;
                assert(self.undo@[i] == old_undo.push(op)[oi]);
                assert(self.past@[i] == old_past.push(pre@)[oi]);
                if oi < k {
                    assert(old_undo[oi].done_on(old_past[oi]));
                    if oi + 1 < k {
                        assert(after_past(self.past@, i, post@) == old_past[oi + 1]);
                    } else {
                        assert(after_past(self.past@, i, post@) == pre@);
                    }
                }
            }
        }
    }
}

} // verus!
