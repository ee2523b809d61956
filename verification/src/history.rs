use vstd::prelude::*;

verus! {

/// How many undo steps to retain.
pub const MAX_UNDO_STEPS: usize = 100;

/// The abstract state of a history: the live document, the undo stack
/// (most recent last) and the redo stack (most recently undone last).
pub type HistoryState<D> = (D, Seq<D>, Seq<D>);

/// Pushes `d` on the undo stack, dropping the oldest entry once the stack
/// would exceed `MAX_UNDO_STEPS`.
pub open spec fn push_capped<D>(stack: Seq<D>, d: D) -> Seq<D> {
    if stack.len() + 1 > MAX_UNDO_STEPS {
        stack.push(d).subrange(1, stack.len() as int + 1)
    } else {
        stack.push(d)
    }
}

/// `record` with `copy` the snapshot taken of the live document.
pub open spec fn record_step<D>(h: HistoryState<D>, copy: D) -> HistoryState<D> {
    (h.0, push_capped(h.1, copy), Seq::empty())
}

/// Undo: the most recent snapshot becomes live, the live document goes on
/// the redo stack; nothing happens when there is nothing to undo.
pub open spec fn undo_step<D>(h: HistoryState<D>) -> HistoryState<D> {
    if h.1.len() == 0 {
        h
    } else {
        (h.1.last(), h.1.drop_last(), h.2.push(h.0))
    }
}

/// Redo: the inverse move.
pub open spec fn redo_step<D>(h: HistoryState<D>) -> HistoryState<D> {
    if h.2.len() == 0 {
        h
    } else {
        (h.2.last(), h.1.push(h.0), h.2.drop_last())
    }
}

/// The live document plus linear undo/redo history. Every modelling
/// command records a snapshot of the document before mutating it.
pub struct History<D> {
    pub document: D,
    undo_stack: Vec<D>,
    redo_stack: Vec<D>,
}

impl<D> History<D> {
    pub closed spec fn state(&self) -> HistoryState<D> {
        (self.document, self.undo_stack@, self.redo_stack@)
    }

    pub closed spec fn inv(&self) -> bool {
        self.undo_stack@.len() + self.redo_stack@.len() <= MAX_UNDO_STEPS
    }

    /// A history holding `document` and nothing to undo or redo.
    pub fn new(document: D) -> (h: History<D>)
        ensures
            h.state() == (document, Seq::<D>::empty(), Seq::<D>::empty()),
            h.inv(),
    {
        History { document, undo_stack: Vec::new(), redo_stack: Vec::new() }
    }

    pub fn undo_len(&self) -> (n: usize)
        ensures
            n == self.state().1.len(),
    {
        self.undo_stack.len()
    }

    pub fn redo_len(&self) -> (n: usize)
        ensures
            n == self.state().2.len(),
    {
        self.redo_stack.len()
    }

    /// Undoes the last recorded mutation; a no-op with nothing to undo.
    pub fn undo(&mut self)
        requires
            old(self).inv(),
        ensures
            final(self).state() == undo_step(old(self).state()),
            final(self).inv(),
    {
        if let Some(previous) = self.undo_stack.pop() {
            let mut current = previous;
            std::mem::swap(&mut self.document, &mut current);
            self.redo_stack.push(current);
        }
    }

    /// Re-applies the last undone mutation; a no-op with nothing to redo.
    pub fn redo(&mut self)
        requires
            old(self).inv(),
        ensures
            final(self).state() == redo_step(old(self).state()),
            final(self).inv(),
    {
        if let Some(next) = self.redo_stack.pop() {
            let mut current = next;
            std::mem::swap(&mut self.document, &mut current);
            self.undo_stack.push(current);
        }
    }
}

impl<D: Clone> History<D> {
    /// Call before applying a modelling mutation: snapshots the current
    /// document onto the undo stack (dropping the oldest snapshot beyond
    /// `MAX_UNDO_STEPS`) and clears redo - a fresh edit invalidates whatever
    /// was undone before it.
    pub fn record(&mut self)
        requires
            old(self).inv(),
        ensures
            exists|copy: D|
                cloned(old(self).state().0, copy) && final(self).state() == #[trigger] record_step(old(self).state(), copy),
            final(self).inv(),
    {
        let copy = self.document.clone();
        self.undo_stack.push(copy);
        if self.undo_stack.len() > MAX_UNDO_STEPS {
            self.undo_stack.remove(0);
        }
        self.redo_stack.clear();
        proof {
            assert(cloned(old(self).state().0, copy));
            assert(self.state() =~= record_step(old(self).state(), copy));
        }
    }
}

/// Undo after redo restores the history exactly, as does redo after undo:
/// the two are inverse moves wherever they do anything.
pub proof fn lemma_undo_redo_inverse<D>(h: HistoryState<D>)
    ensures
        h.1.len() > 0 ==> redo_step(undo_step(h)) == h,
        h.2.len() > 0 ==> undo_step(redo_step(h)) == h,
{
    if h.1.len() > 0 {
        assert(undo_step(h).2.drop_last() =~= h.2);
        assert(undo_step(h).1.push(undo_step(h).0) =~= h.1);
    }
    if h.2.len() > 0 {
        assert(redo_step(h).1.drop_last() =~= h.1);
        assert(redo_step(h).2.push(redo_step(h).0) =~= h.2);
    }
}

/// Undoing right after recording brings back the recorded snapshot as the
/// live document, leaving the earlier undo history as it was (when the
/// stack was not full).
pub proof fn lemma_undo_reverts_record<D>(h: HistoryState<D>, copy: D)
    ensures
        undo_step(record_step(h, copy)).0 == copy,
        h.1.len() < MAX_UNDO_STEPS ==> undo_step(record_step(h, copy)).1 == h.1,
        undo_step(record_step(h, copy)).2 == seq![h.0],
{
    let r = record_step(h, copy);
    assert(r.1.len() > 0);
    if h.1.len() + 1 > MAX_UNDO_STEPS {
        assert(r.1.last() == copy);
    } else {
        assert(r.1.drop_last() =~= h.1);
    }
    assert(Seq::<D>::empty().push(h.0) =~= seq![h.0]);
}

/// A fresh edit leaves nothing to redo, and the undo stack never holds more
/// than `MAX_UNDO_STEPS` snapshots.
pub proof fn lemma_record_clears_redo_and_caps<D>(h: HistoryState<D>, copy: D)
    requires
        h.1.len() <= MAX_UNDO_STEPS,
    ensures
        record_step(h, copy).2.len() == 0,
        record_step(h, copy).1.len() <= MAX_UNDO_STEPS,
        record_step(h, copy).1.last() == copy,
{
}

/// Law: recording keeps the newest history in order. The undo stack after
/// a record is the old stack followed by the snapshot, cut down to its
/// newest `MAX_UNDO_STEPS` entries: only the oldest snapshots are ever
/// dropped. So the first undo after an edit brings back the snapshot and
/// the second the newest snapshot from before it.
pub proof fn lemma_record_keeps_newest_history<D>(h: HistoryState<D>, copy: D, edited: D)
    requires
        h.1.len() <= MAX_UNDO_STEPS,
    ensures
        h.1.len() < MAX_UNDO_STEPS ==> record_step(h, copy).1 == h.1.push(copy),
        h.1.len() == MAX_UNDO_STEPS ==> record_step(h, copy).1 == h.1.push(copy).subrange(1, h.1.len() as int + 1),
        record_step(h, copy).1.len() <= MAX_UNDO_STEPS,
        forall|k: int|
            0 <= k < record_step(h, copy).1.len() ==> #[trigger] record_step(h, copy).1[record_step(h, copy).1.len() - 1 - k]
                == h.1.push(copy)[h.1.len() - k],
        undo_step((edited, record_step(h, copy).1, record_step(h, copy).2)).0 == copy,
        h.1.len() > 0 ==> undo_step(undo_step((edited, record_step(h, copy).1, record_step(h, copy).2))).0 == h.1.last(),
{
    let r = record_step(h, copy).1;
    let all = h.1.push(copy);
    if h.1.len() + 1 > MAX_UNDO_STEPS {
        assert(r =~= all.subrange(1, h.1.len() as int + 1));
        assert forall|k: int| 0 <= k < r.len() implies #[trigger] r[r.len() - 1 - k] == all[h.1.len() - k] by {}
        if h.1.len() > 0 {
            assert(r.drop_last().last() == all[h.1.len() - 1]);
        }
    } else {
        assert(r =~= all);
        if h.1.len() > 0 {
            assert(r.drop_last().last() == all[h.1.len() - 1]);
        }
    }
}

} // verus!
