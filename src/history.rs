//! The abstract undo/redo history: the states that undo can go back to,
//! the present state of the store, and the states that redo can go forward
//! to again.

use vstd::prelude::*;

use crate::tasks::TaskView;

verus! {

/// A state of the store: its tasks in display order.
pub type State = Seq<TaskView>;

/// `past` with `s` added on top, and the oldest state dropped where more
/// than `depth` would remain.
pub open spec fn bounded_push(past: Seq<State>, s: State, depth: nat) -> Seq<State> {
    let p = past.push(s);
    if p.len() > depth {
        p.drop_first()
    } else {
        p
    }
}

/// The history of a store, as seen through undo and redo.
pub ghost struct History {
    /// The states before each operation that can still be undone, oldest
    /// first.
    pub past: Seq<State>,
    /// The current state.
    pub present: State,
    /// The states that redo goes to, the next one last.
    pub future: Seq<State>,
}

impl History {
    /// A history with nothing to undo or redo.
    pub open spec fn fresh(present: State) -> History {
        History { past: Seq::empty(), present, future: Seq::empty() }
    }

    /// The history after an operation took the store to `next`, keeping at
    /// most `depth` states to undo.
    pub open spec fn exec(self, next: State, depth: nat) -> History {
        History { past: bounded_push(self.past, self.present, depth), present: next, future: Seq::empty() }
    }

    /// The history after an undo; unchanged where there is nothing to undo.
    pub open spec fn undo(self) -> History {
        if self.past.len() == 0 {
            self
        } else {
            History {
                past: self.past.drop_last(),
                present: self.past.last(),
                future: self.future.push(self.present),
            }
        }
    }

    /// The history after a redo; unchanged where there is nothing to redo.
    pub open spec fn redo(self, depth: nat) -> History {
        if self.future.len() == 0 {
            self
        } else {
            History {
                past: bounded_push(self.past, self.present, depth),
                present: self.future.last(),
                future: self.future.drop_last(),
            }
        }
    }
}

/// Whether every identity in `s` is below `n`.
pub open spec fn ids_below(s: State, n: nat) -> bool {
    forall|i: int| 0 <= i < s.len() ==> (#[trigger] s[i]).id@ < n
}

/// Whether every identity anywhere in `h` is below `n`.
pub open spec fn history_ids_below(h: History, n: nat) -> bool {
    &&& ids_below(h.present, n)
    &&& forall|i: int| 0 <= i < h.past.len() ==> ids_below(#[trigger] h.past[i], n)
    &&& forall|j: int| 0 <= j < h.future.len() ==> ids_below(#[trigger] h.future[j], n)
}

/// Undo, redo and exec only move states around, so a bound on identities
/// carries over; exec needs the bound on the new present too.
pub proof fn lemma_ids_below_kept(h: History, n: nat, m: nat, next: State, depth: nat)
    requires
        history_ids_below(h, n),
        n <= m,
    ensures
        history_ids_below(h, m),
        history_ids_below(h.undo(), m),
        history_ids_below(h.redo(depth), m),
        ids_below(next, m) ==> history_ids_below(h.exec(next, depth), m),
{
    assert forall|s: State| ids_below(s, n) implies ids_below(s, m) by {
        assert forall|i: int| 0 <= i < s.len() implies (#[trigger] s[i]).id@ < m by {
        }
    }
    assert(history_ids_below(h, m));
    let u = h.undo();
    if h.past.len() > 0 {
        assert forall|i: int| 0 <= i < u.past.len() implies ids_below(#[trigger] u.past[i], m) by {
            assert(u.past[i] == h.past[i]);
        }
        assert forall|j: int| 0 <= j < u.future.len() implies ids_below(#[trigger] u.future[j], m) by {
            if j < h.future.len() {
                assert(u.future[j] == h.future[j]);
            }
        }
        assert(ids_below(h.past[h.past.len() - 1], m));
    }
    let p = bounded_push(h.past, h.present, depth);
    let q = h.past.push(h.present);
    assert forall|i: int| 0 <= i < p.len() implies ids_below(#[trigger] p[i], m) by {
        let oi = if q.len() > depth { i + 1 } else { i };
        assert(p[i] == q[oi]);
        if oi < h.past.len() {
            assert(q[oi] == h.past[oi]);
        }
    }
    let r = h.redo(depth);
    if h.future.len() > 0 {
        assert forall|j: int| 0 <= j < r.future.len() implies ids_below(#[trigger] r.future[j], m) by {
            assert(r.future[j] == h.future[j]);
        }
        assert(ids_below(h.future[h.future.len() - 1], m));
    }
}

/// The history after operations took the store to each state of `nexts`
/// in turn.
pub open spec fn run(h: History, nexts: Seq<State>, depth: nat) -> History
    decreases nexts.len(),
{
    if nexts.len() == 0 {
        h
    } else {
        run(h, nexts.drop_last(), depth).exec(nexts.last(), depth)
    }
}

/// The history after `n` undos.
pub open spec fn undo_times(h: History, n: nat) -> History
    decreases n,
{
    if n == 0 {
        h
    } else {
        undo_times(h.undo(), (n - 1) as nat)
    }
}

/// The last `d` entries of `s`, or all of them where there are fewer.
pub open spec fn keep_last(s: Seq<State>, d: nat) -> Seq<State> {
    if s.len() <= d {
        s
    } else {
        s.subrange(s.len() - d, s.len() as int)
    }
}

/// After a run, the states to undo are the last `depth` of those the run
/// went through, the present is the last state reached, and nothing is left
/// to redo.
proof fn lemma_run_shape(h: History, nexts: Seq<State>, depth: nat)
    requires
        h.past.len() <= depth,
    ensures
        run(h, nexts, depth).past == keep_last(
            h.past + seq![h.present].add(nexts).take(nexts.len() as int),
            depth,
        ),
        run(h, nexts, depth).present == seq![h.present].add(nexts)[nexts.len() as int],
        nexts.len() > 0 ==> run(h, nexts, depth).future.len() == 0,
    decreases nexts.len(),
{
    let chain = seq![h.present].add(nexts);
    let n = nexts.len() as int;
    if n == 0 {
        assert(h.past + chain.take(0) =~= h.past);
    } else {
        let prev = nexts.drop_last();
        lemma_run_shape(h, prev, depth);
        let pchain = seq![h.present].add(prev);
        let r = run(h, prev, depth);
        let pfull = h.past + pchain.take(n - 1);
        let full = h.past + chain.take(n);
        assert(pchain.take(n - 1) =~= chain.take(n - 1));
        assert(pchain[n - 1] == chain[n - 1]);
        assert(full =~= pfull.push(chain[n - 1]));
        assert(r.present == chain[n - 1]);
        assert(chain[n] == nexts.last());
        if pfull.len() < depth {
            assert(bounded_push(r.past, r.present, depth) =~= keep_last(full, depth));
        } else {
            assert(bounded_push(r.past, r.present, depth) =~= keep_last(full, depth));
        }
    }
}

/// After `n` undos, the last `n` states to undo are gone and the present is
/// the earliest of them.
proof fn lemma_undo_times_shape(h: History, n: nat)
    requires
        n <= h.past.len(),
    ensures
        undo_times(h, n).past == h.past.subrange(0, h.past.len() - n),
        n > 0 ==> undo_times(h, n).present == h.past[h.past.len() - n],
        n == 0 ==> undo_times(h, n).present == h.present,
    decreases n,
{
    if n == 0 {
        assert(h.past.subrange(0, h.past.len() as int) =~= h.past);
    } else {
        let u = h.undo();
        lemma_undo_times_shape(u, (n - 1) as nat);
        assert(u.past.subrange(0, u.past.len() - (n - 1)) =~= h.past.subrange(0, h.past.len() - n));
    }
}

/// One more undo is an undo after the others.
proof fn lemma_undo_times_last(h: History, n: nat)
    ensures
        undo_times(h, n + 1) == undo_times(h, n).undo(),
    decreases n,
{
    assert(undo_times(h, n + 1) == undo_times(h.undo(), n));
    if n > 0 {
        lemma_undo_times_last(h.undo(), (n - 1) as nat);
    } else {
        assert(undo_times(h.undo(), 0) == h.undo());
    }
}

/// Undoing as many operations as were performed, no more than `depth` of
/// them, brings the store back to the state it had before the first: each
/// operation is undone exactly and in reverse order.
pub proof fn lemma_undo_all(h: History, nexts: Seq<State>, depth: nat)
    requires
        h.past.len() <= depth,
        nexts.len() <= depth,
    ensures
        undo_times(run(h, nexts, depth), nexts.len()).present == h.present,
{
    let n = nexts.len();
    let r = run(h, nexts, depth);
    lemma_run_shape(h, nexts, depth);
    let chain = seq![h.present].add(nexts);
    let full = h.past + chain.take(n as int);
    assert(r.past.len() >= n);
    lemma_undo_times_shape(r, n);
    if n > 0 {
        let lp = r.past.len();
        assert(r.past[lp - n] == full[full.len() - n]);
        assert(full[h.past.len() as int] == chain[0]);
    }
}

/// An undo followed by a redo puts back exactly the history that the
/// operation left, store included.
pub proof fn lemma_exec_undo_redo(h: History, next: State, depth: nat)
    requires
        h.past.len() <= depth,
        depth > 0,
    ensures
        h.exec(next, depth).undo().redo(depth) == h.exec(next, depth),
{
    let e = h.exec(next, depth);
    let u = e.undo();
    assert(u.future =~= seq![next]);
    assert(bounded_push(u.past, u.present, depth) =~= e.past);
    assert(u.future.drop_last() =~= e.future);
}

/// A new operation forgets what could be redone: after undoing one operation
/// and performing another, redo changes nothing.
pub proof fn lemma_exec_clears_redo(h: History, a: State, b: State, depth: nat)
    ensures
        h.exec(a, depth).undo().exec(b, depth).future.len() == 0,
        h.exec(a, depth).undo().exec(b, depth).redo(depth) == h.exec(a, depth).undo().exec(b, depth),
{
}

/// At most `depth` operations can be undone: after more than `depth`
/// operations, `depth` undos reach the state after the oldest operations
/// that were kept, and a further undo changes nothing.
pub proof fn lemma_bounded_depth(h: History, nexts: Seq<State>, depth: nat)
    requires
        h.past.len() <= depth,
        nexts.len() > depth,
    ensures
        run(h, nexts, depth).past.len() == depth,
        undo_times(run(h, nexts, depth), depth).present == nexts[nexts.len() - depth - 1],
        undo_times(run(h, nexts, depth), depth).past.len() == 0,
        undo_times(run(h, nexts, depth), depth + 1) == undo_times(run(h, nexts, depth), depth),
{
    let n = nexts.len();
    let r = run(h, nexts, depth);
    lemma_run_shape(h, nexts, depth);
    let chain = seq![h.present].add(nexts);
    let full = h.past + chain.take(n as int);
    assert(r.past.len() == depth);
    lemma_undo_times_shape(r, depth);
    lemma_undo_times_last(r, depth);
    if depth > 0 {
        assert(r.past[0] == full[full.len() - depth]);
        assert(full[full.len() - depth] == chain[n - depth]);
    } else {
        assert(r.present == chain[n as int]);
    }
}

} // verus!
