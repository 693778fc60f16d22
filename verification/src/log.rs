use vstd::prelude::*;

use crate::storage::MAX_TEXT;

verus! {

/// One primitive content change: a single byte inserted at an offset, or a
/// single byte removed from an offset.
#[derive(Copy, Clone, PartialEq, Eq, Structural, Debug)]
pub enum Change {
    Insert(usize, u8),
    Remove(usize, u8),
}

/// One logical edit: the ordered list of primitive changes it produced,
/// together with the offset at which it began.
#[derive(Clone, PartialEq, Debug)]
pub struct LogEntry {
    pub idx: usize,
    pub changes: Vec<Change>,
}

/// The transaction history: a stack of completed edits and a stack of
/// undone edits, each with its most recent entry last.
#[derive(Clone, Debug)]
pub struct Log {
    pub undo_stack: Vec<LogEntry>,
    pub redo_stack: Vec<LogEntry>,
}

/// Whether a single change can be replayed against the given content: an
/// insertion needs an offset no further than the end (and room to grow),
/// and a removal must name the byte actually stored at its offset.
pub open spec fn change_applicable(t: Seq<u8>, c: Change) -> bool {
    match c {
        Change::Insert(i, _) => i <= t.len() && t.len() < MAX_TEXT,
        Change::Remove(i, b) => i < t.len() && t[i as int] == b,
    }
}

/// The content after replaying a single change.
pub open spec fn apply_change(t: Seq<u8>, c: Change) -> Seq<u8> {
    match c {
        Change::Insert(i, b) => if i <= t.len() && t.len() < MAX_TEXT {
            t.insert(i as int, b)
        } else {
            t
        },
        Change::Remove(i, _) => if i < t.len() {
            t.remove(i as int)
        } else {
            t
        },
    }
}

/// Whether a change list can be replayed in order, each change against the
/// content left by the ones before it.
pub open spec fn changes_applicable(t: Seq<u8>, cs: Seq<Change>) -> bool
    decreases cs.len(),
{
    cs.len() == 0 || (change_applicable(t, cs[0]) && changes_applicable(
        apply_change(t, cs[0]),
        cs.skip(1),
    ))
}

/// The content after replaying a change list in order.
pub open spec fn apply_changes(t: Seq<u8>, cs: Seq<Change>) -> Seq<u8>
    decreases cs.len(),
{
    if cs.len() == 0 {
        t
    } else {
        apply_changes(apply_change(t, cs[0]), cs.skip(1))
    }
}

/// The byte-exact inverse of a single change.
pub open spec fn invert_change(c: Change) -> Change {
    match c {
        Change::Insert(i, b) => Change::Remove(i, b),
        Change::Remove(i, b) => Change::Insert(i, b),
    }
}

/// The byte-exact inverse of a change list: each change inverted, replayed
/// in the reverse of the recorded order.
pub open spec fn invert_changes(cs: Seq<Change>) -> Seq<Change> {
    Seq::new(cs.len(), |k: int| invert_change(cs[cs.len() - 1 - k]))
}

/// The changes recorded when the bytes of `[lo, hi)` are removed from
/// `t`, proceeding from the end of the range backward.
pub open spec fn removal_changes(t: Seq<u8>, lo: int, hi: int) -> Seq<Change>
    recommends
        0 <= lo <= hi <= t.len(),
{
    Seq::new((hi - lo) as nat, |k: int| Change::Remove((hi - 1 - k) as usize, t[hi - 1 - k]))
}

/// Whether every entry of an undo stack can be undone in turn: the inverse
/// of the most recent entry replays against the current content, and the
/// rest of the stack against the content that leaves.
pub open spec fn undo_stack_valid(t: Seq<u8>, stack: Seq<LogEntry>) -> bool
    decreases stack.len(),
{
    stack.len() == 0 || {
        let e = stack.last();
        &&& changes_applicable(t, invert_changes(e.changes@))
        &&& undo_stack_valid(apply_changes(t, invert_changes(e.changes@)), stack.drop_last())
    }
}

/// Whether every entry of a redo stack can be replayed in turn, most
/// recently undone first.
pub open spec fn redo_stack_valid(t: Seq<u8>, stack: Seq<LogEntry>) -> bool
    decreases stack.len(),
{
    stack.len() == 0 || {
        let e = stack.last();
        &&& changes_applicable(t, e.changes@)
        &&& redo_stack_valid(apply_changes(t, e.changes@), stack.drop_last())
    }
}

/// Replaying one more change continues from the content the earlier
/// changes left behind.
pub proof fn lemma_apply_push(t: Seq<u8>, cs: Seq<Change>, c: Change)
    ensures
        apply_changes(t, cs.push(c)) == apply_change(apply_changes(t, cs), c),
        changes_applicable(t, cs.push(c)) <==> (changes_applicable(t, cs) && change_applicable(
            apply_changes(t, cs),
            c,
        )),
    decreases cs.len(),
{
    if cs.len() == 0 {
        assert(cs.push(c)[0] == c);
        assert(cs.push(c).skip(1) =~= Seq::<Change>::empty());
        assert(apply_changes(t, cs.push(c)) == apply_changes(
            apply_change(t, c),
            Seq::<Change>::empty(),
        ));
        assert(apply_changes(t, cs) == t);
        assert(changes_applicable(t, cs.push(c)) == (change_applicable(t, c)
            && changes_applicable(apply_change(t, c), Seq::<Change>::empty())));
    } else {
        let t1 = apply_change(t, cs[0]);
        assert(cs.push(c)[0] == cs[0]);
        assert(cs.push(c).skip(1) =~= cs.skip(1).push(c));
        lemma_apply_push(t1, cs.skip(1), c);
        assert(apply_changes(t, cs.push(c)) == apply_changes(t1, cs.skip(1).push(c)));
        assert(apply_changes(t, cs) == apply_changes(t1, cs.skip(1)));
        assert(changes_applicable(t, cs.push(c)) == (change_applicable(t, cs[0])
            && changes_applicable(t1, cs.skip(1).push(c))));
    }
}

/// Replaying a change and then its inverse restores the content exactly.
pub proof fn lemma_change_round_trip(t: Seq<u8>, c: Change)
    requires
        t.len() <= MAX_TEXT,
        change_applicable(t, c),
    ensures
        apply_change(t, c).len() <= MAX_TEXT,
        change_applicable(apply_change(t, c), invert_change(c)),
        apply_change(apply_change(t, c), invert_change(c)) == t,
{
    match c {
        Change::Insert(i, b) => {
            let t1 = t.insert(i as int, b);
            t.insert_ensures(i as int, b);
            assert(t1.remove(i as int) =~= t);
        },
        Change::Remove(i, b) => {
            let t1 = t.remove(i as int);
            t.remove_ensures(i as int);
            assert(t1.insert(i as int, b) =~= t);
        },
    }
}

/// The inverse of a change list undoes the list's first change last: it
/// is the inverse of the rest of the list, followed by the inverse of the
/// first change.
pub proof fn lemma_invert_head(cs: Seq<Change>)
    requires
        cs.len() > 0,
    ensures
        invert_changes(cs) == invert_changes(cs.skip(1)).push(invert_change(cs[0])),
{
    let n = cs.len();
    assert forall|k: int| 0 <= k < n - 1 implies invert_changes(cs.skip(1))[k] == invert_changes(
        cs,
    )[k] by {
        assert(cs.skip(1)[n - 2 - k] == cs[n - 1 - k]);
    }
    assert(invert_changes(cs) =~= invert_changes(cs.skip(1)).push(invert_change(cs[0])));
}

/// Inverting a change list twice gives back the original list.
pub proof fn lemma_invert_involution(cs: Seq<Change>)
    ensures
        invert_changes(invert_changes(cs)) == cs,
{
    assert(invert_changes(invert_changes(cs)) =~= cs);
}

/// Replaying a transaction's changes and then their inverse restores the
/// content exactly, byte for byte. This is the round-trip law behind undo:
/// one insertion then its undo, or one removal then its undo, leaves the
/// content it found.
pub proof fn lemma_edit_round_trip(t: Seq<u8>, cs: Seq<Change>)
    requires
        t.len() <= MAX_TEXT,
        changes_applicable(t, cs),
    ensures
        apply_changes(t, cs).len() <= MAX_TEXT,
        changes_applicable(apply_changes(t, cs), invert_changes(cs)),
        apply_changes(apply_changes(t, cs), invert_changes(cs)) == t,
    decreases cs.len(),
{
    if cs.len() == 0 {
        assert(invert_changes(cs) =~= Seq::<Change>::empty());
    } else {
        let c = cs[0];
        let t1 = apply_change(t, c);
        lemma_change_round_trip(t, c);
        lemma_edit_round_trip(t1, cs.skip(1));
        lemma_invert_head(cs);
        let done = apply_changes(t, cs);
        lemma_apply_push(done, invert_changes(cs.skip(1)), invert_change(c));
        assert(apply_changes(done, invert_changes(cs.skip(1))) == t1);
        assert(apply_changes(done, invert_changes(cs)) == apply_change(t1, invert_change(c)));
    }
}

/// Redo after undo restores the content the undo found: replaying the
/// inverse of a transaction and then the transaction itself is the
/// identity. Repeated undo/redo cycles therefore cannot drift.
pub proof fn lemma_undo_redo_round_trip(t: Seq<u8>, cs: Seq<Change>)
    requires
        t.len() <= MAX_TEXT,
        changes_applicable(t, invert_changes(cs)),
    ensures
        changes_applicable(apply_changes(t, invert_changes(cs)), cs),
        apply_changes(apply_changes(t, invert_changes(cs)), cs) == t,
{
    lemma_edit_round_trip(t, invert_changes(cs));
    lemma_invert_involution(cs);
}

/// The history half of the undo/redo round trip: taking the top entry off
/// a stack and pushing it straight back leaves the stack as it was, so an
/// undo followed by a redo restores the history state exactly.
pub proof fn lemma_stack_round_trip(stack: Seq<LogEntry>)
    requires
        stack.len() > 0,
    ensures
        stack.drop_last().push(stack.last()) == stack,
{
    assert(stack.drop_last().push(stack.last()) =~= stack);
}

/// One insertion and its undo: inserting a byte yields exactly the content
/// with that byte spliced in, and replaying the recorded change's inverse
/// restores the original content.
pub proof fn lemma_insert_round_trip(t: Seq<u8>, i: usize, b: u8)
    requires
        i <= t.len(),
        t.len() < MAX_TEXT,
    ensures
        apply_changes(t, seq![Change::Insert(i, b)]) == t.insert(i as int, b),
        changes_applicable(t, seq![Change::Insert(i, b)]),
        apply_changes(
            apply_changes(t, seq![Change::Insert(i, b)]),
            invert_changes(seq![Change::Insert(i, b)]),
        ) == t,
{
    let cs = seq![Change::Insert(i, b)];
    assert(cs.len() == 1 && cs[0] == Change::Insert(i, b));
    assert(cs.skip(1) =~= Seq::<Change>::empty());
    assert(change_applicable(t, cs[0]));
    assert(changes_applicable(apply_change(t, cs[0]), cs.skip(1)));
    assert(changes_applicable(t, cs));
    assert(apply_changes(t, cs) == apply_changes(apply_change(t, cs[0]), cs.skip(1)));
    assert(apply_change(t, cs[0]) == t.insert(i as int, b));
    lemma_edit_round_trip(t, cs);
}

/// The removal changes for `[lo, hi)` replay against the original content,
/// produce exactly the content with that range cut out, and their inverse
/// restores the removed bytes at their original offsets, byte for byte.
pub proof fn lemma_remove_range_round_trip(t: Seq<u8>, lo: int, hi: int)
    requires
        0 <= lo <= hi <= t.len(),
        t.len() <= MAX_TEXT,
    ensures
        changes_applicable(t, removal_changes(t, lo, hi)),
        apply_changes(t, removal_changes(t, lo, hi)) == t.subrange(0, lo) + t.subrange(
            hi,
            t.len() as int,
        ),
        apply_changes(
            apply_changes(t, removal_changes(t, lo, hi)),
            invert_changes(removal_changes(t, lo, hi)),
        ) == t,
    decreases hi - lo,
{
    let cs = removal_changes(t, lo, hi);
    if lo == hi {
        assert(apply_changes(t, cs) =~= t.subrange(0, lo) + t.subrange(hi, t.len() as int));
        lemma_edit_round_trip(t, cs);
    } else {
        let t1 = t.remove(hi - 1);
        t.remove_ensures(hi - 1);
        assert(cs[0] == Change::Remove((hi - 1) as usize, t[hi - 1]));
        assert(apply_change(t, cs[0]) == t1);
        assert(cs.skip(1) =~= removal_changes(t1, lo, hi - 1)) by {
            assert forall|k: int| 0 <= k < hi - 1 - lo implies cs.skip(1)[k] == removal_changes(
                t1,
                lo,
                hi - 1,
            )[k] by {
                assert(t1[hi - 2 - k] == t[hi - 2 - k]);
            }
        }
        lemma_remove_range_round_trip(t1, lo, hi - 1);
        assert(t1.subrange(0, lo) =~= t.subrange(0, lo));
        assert(t1.subrange(hi - 1, t1.len() as int) =~= t.subrange(hi, t.len() as int));
        lemma_edit_round_trip(t, cs);
    }
}

/// Copy a change list element by element.
fn copy_changes(cs: &Vec<Change>) -> (r: Vec<Change>)
    ensures
        r@ == cs@,
{
    let mut r: Vec<Change> = Vec::new();
    let mut i: usize = 0;
    assert(r@ =~= cs@.take(0));
    while i < cs.len()
        invariant
            i <= cs@.len(),
            r@ == cs@.take(i as int),
        decreases cs@.len() - i,
    {
        r.push(cs[i]);
        assert(r@ =~= cs@.take(i + 1));
        i = i + 1;
    }
    assert(cs@.take(cs@.len() as int) =~= cs@);
    r
}

/// Build the byte-exact inverse of an entry: each change inverted, in the
/// reverse of the recorded order.
fn invert_entry(e: &LogEntry) -> (r: LogEntry)
    ensures
        r.idx == e.idx,
        r.changes@ == invert_changes(e.changes@),
{
    let n = e.changes.len();
    let mut changes: Vec<Change> = Vec::new();
    let mut k: usize = 0;
    assert(changes@ =~= invert_changes(e.changes@).take(0));
    while k < n
        invariant
            n == e.changes@.len(),
            k <= n,
            changes@ == invert_changes(e.changes@).take(k as int),
        decreases n - k,
    {
        let c = e.changes[n - 1 - k];
        let inv = match c {
            Change::Insert(i, b) => Change::Remove(i, b),
            Change::Remove(i, b) => Change::Insert(i, b),
        };
        changes.push(inv);
        assert(changes@ =~= invert_changes(e.changes@).take(k + 1));
        k = k + 1;
    }
    assert(invert_changes(e.changes@).take(n as int) =~= invert_changes(e.changes@));
    LogEntry { idx: e.idx, changes }
}

impl Log {
    /// An empty history.
    pub fn new() -> (r: Log)
        ensures
            r.undo_stack@.len() == 0,
            r.redo_stack@.len() == 0,
    {
        Log { undo_stack: Vec::new(), redo_stack: Vec::new() }
    }

    /// Begin a new transaction at the given offset: push an empty entry
    /// onto the undo stack and discard the whole redo history, as any
    /// fresh edit invalidates previously undone states.
    pub fn start(&mut self, idx: usize)
        ensures
            final(self).undo_stack@.len() == old(self).undo_stack@.len() + 1,
            final(self).undo_stack@.drop_last() == old(self).undo_stack@,
            final(self).undo_stack@.last().idx == idx,
            final(self).undo_stack@.last().changes@.len() == 0,
            final(self).redo_stack@.len() == 0,
    {
        self.undo_stack.push(LogEntry { idx, changes: Vec::new() });
        self.redo_stack.clear();
        proof {
            assert(self.undo_stack@.drop_last() =~= old(self).undo_stack@);
        }
    }

    /// Record one primitive change in the transaction begun last.
    pub fn record(&mut self, c: Change)
        requires
            old(self).undo_stack@.len() > 0,
        ensures
            final(self).undo_stack@.len() == old(self).undo_stack@.len(),
            final(self).undo_stack@.drop_last() == old(self).undo_stack@.drop_last(),
            final(self).undo_stack@.last().idx == old(self).undo_stack@.last().idx,
            final(self).undo_stack@.last().changes@ == old(
                self,
            ).undo_stack@.last().changes@.push(c),
            final(self).redo_stack@ == old(self).redo_stack@,
    {
        let last = self.undo_stack.len() - 1;
        let entry = &mut self.undo_stack[last];
        entry.changes.push(c);
        proof {
            assert(self.undo_stack@.drop_last() =~= old(self).undo_stack@.drop_last());
        }
    }

    /// Take the most recent transaction off the undo stack, move it to the
    /// redo stack, and hand back its byte-exact inverse, ready to be
    /// replayed against the content. No-op when nothing can be undone.
    pub fn undo(&mut self) -> (r: Option<LogEntry>)
        ensures
            old(self).undo_stack@.len() == 0 ==> r is None && final(self).undo_stack@ == old(
                self,
            ).undo_stack@ && final(self).redo_stack@ == old(self).redo_stack@,
            old(self).undo_stack@.len() > 0 ==> {
                let e = old(self).undo_stack@.last();
                &&& final(self).undo_stack@ == old(self).undo_stack@.drop_last()
                &&& final(self).redo_stack@ == old(self).redo_stack@.push(e)
                &&& r is Some
                &&& r->Some_0.idx == e.idx
                &&& r->Some_0.changes@ == invert_changes(e.changes@)
            },
    {
        match self.undo_stack.pop() {
            Some(e) => {
                let inv = invert_entry(&e);
                self.redo_stack.push(e);
                Some(inv)
            },
            None => None,
        }
    }

    /// Take the most recently undone transaction off the redo stack, move
    /// it back to the undo stack, and hand back a copy of it, ready to be
    /// replayed in its original order. No-op when nothing can be redone.
    pub fn redo(&mut self) -> (r: Option<LogEntry>)
        ensures
            old(self).redo_stack@.len() == 0 ==> r is None && final(self).undo_stack@ == old(
                self,
            ).undo_stack@ && final(self).redo_stack@ == old(self).redo_stack@,
            old(self).redo_stack@.len() > 0 ==> {
                let e = old(self).redo_stack@.last();
                &&& final(self).redo_stack@ == old(self).redo_stack@.drop_last()
                &&& final(self).undo_stack@ == old(self).undo_stack@.push(e)
                &&& r is Some
                &&& r->Some_0.idx == e.idx
                &&& r->Some_0.changes@ == e.changes@
            },
    {
        match self.redo_stack.pop() {
            Some(e) => {
                let copy = LogEntry { idx: e.idx, changes: copy_changes(&e.changes) };
                self.undo_stack.push(e);
                Some(copy)
            },
            None => None,
        }
    }
}

} // verus!
