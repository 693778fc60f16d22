use vstd::prelude::*;

use gapbuffer::GapBuffer;

use crate::log::{
    apply_change, apply_changes, change_applicable, changes_applicable, invert_changes,
    lemma_apply_push, lemma_edit_round_trip, lemma_insert_round_trip, lemma_undo_redo_round_trip,
    removal_changes, redo_stack_valid, undo_stack_valid, Change, Log, LogEntry,
};
pub use crate::mark::Mark;

use crate::position::{
    count_newlines_before, find_line_start, find_nth_newline_back, find_nth_newline_from,
    lemma_line_start_at, lemma_newlines_at_line_start, lemma_newlines_before_le,
    lemma_nth_newline_back, lemma_nth_newline_back_mono, lemma_nth_newline_from,
    lemma_nth_newline_from_mono, line_start_at, newlines_before, nth_newline_back,
    nth_newline_from, NEWLINE,
};
use crate::storage::{gb_contents, gb_get, gb_insert, gb_len, gb_new, gb_remove, MAX_TEXT};
use crate::textobject::{Anchor, Kind, Offset, TextObject};

verus! {

/// The resolved state of a mark: an absolute offset into the text, the
/// offset of the first byte of the line containing it, and the number of
/// line boundaries strictly before that line start.
#[derive(Copy, Clone, PartialEq, Eq, Structural, Debug)]
pub struct MarkPosition {
    pub absolute: usize,
    pub absolute_line_start: usize,
    pub line_number: usize,
}

impl MarkPosition {
    /// The zeroed position: the buffer start.
    pub open spec fn start_spec() -> MarkPosition {
        MarkPosition { absolute: 0, line_number: 0, absolute_line_start: 0 }
    }

    /// The zeroed position: the buffer start.
    pub fn start() -> (r: MarkPosition)
        ensures
            r == MarkPosition::start_spec(),
    {
        MarkPosition { absolute: 0, line_number: 0, absolute_line_start: 0 }
    }
}

/// The fully resolved position at offset `pos`: the offset itself, its
/// line start, and the count of line boundaries before that line start.
pub open spec fn resolved_at(text: Seq<u8>, pos: int) -> MarkPosition
    recommends
        0 <= pos <= text.len(),
{
    MarkPosition {
        absolute: pos as usize,
        absolute_line_start: line_start_at(text, pos) as usize,
        line_number: newlines_before(text, line_start_at(text, pos)) as usize,
    }
}

/// A fully resolved position is internally consistent: its line start is
/// at or before its offset, both lie within the buffer's logical length,
/// and its line number counts exactly the newlines before its line start.
pub proof fn lemma_resolved_at_consistent(text: Seq<u8>, pos: int)
    requires
        0 <= pos <= text.len(),
        text.len() <= usize::MAX,
    ensures
        resolved_at(text, pos).absolute_line_start <= resolved_at(text, pos).absolute,
        resolved_at(text, pos).absolute <= text.len(),
        resolved_at(text, pos).line_number == newlines_before(
            text,
            resolved_at(text, pos).absolute_line_start as int,
        ),
        resolved_at(text, pos).line_number == newlines_before(text, pos),
{
    lemma_line_start_at(text, pos);
    lemma_newlines_before_le(text, line_start_at(text, pos));
    lemma_newlines_at_line_start(text, pos);
    assert(0 <= line_start_at(text, pos) <= pos <= usize::MAX);
    assert(newlines_before(text, line_start_at(text, pos)) <= usize::MAX);
}

/// Resolve a raw offset into a full position: clamp it into the logical
/// range, find the nearest preceding line start (offset 0 always counts
/// as one), and count the line boundaries passed. Always succeeds.
pub fn get_line_info(mark: usize, text: &GapBuffer<u8>) -> (r: Option<MarkPosition>)
    ensures
        ({
            let t = gb_contents(*text);
            let val = if mark <= t.len() {
                mark as int
            } else {
                t.len() as int
            };
            r == Some(resolved_at(t, val))
        }),
{
    let len = gb_len(text);
    let val = if mark < len {
        mark
    } else {
        len
    };
    let ls = find_line_start(text, val);
    proof {
        lemma_line_start_at(gb_contents(*text), val as int);
    }
    let n = count_newlines_before(text, ls);
    Some(MarkPosition { absolute: val, absolute_line_start: ls, line_number: n })
}

/// Whether the byte counts as whitespace when it is read as a character
/// (the Latin-1 range has two extra whitespace code points).
pub open spec fn is_whitespace_byte_spec(b: u8) -> bool {
    b == 9 || b == 10 || b == 11 || b == 12 || b == 13 || b == 32 || b == 0x85 || b == 0xa0
}

fn is_whitespace_byte(b: u8) -> (r: bool)
    ensures
        r == is_whitespace_byte_spec(b),
{
    b == 9 || b == 10 || b == 11 || b == 12 || b == 13 || b == 32 || b == 0x85 || b == 0xa0
}

/// The strategy used to recognise word boundaries.
#[derive(Copy, Clone, PartialEq, Eq, Structural, Debug)]
pub enum WordEdgeMatch {
    Whitespace,
}

/// Whether the adjacent byte pair `c1 -> c2` starts a word under the given
/// strategy.
pub open spec fn word_edge_bytes(m: WordEdgeMatch, c1: u8, c2: u8) -> bool {
    match m {
        WordEdgeMatch::Whitespace => (c1 == NEWLINE && c2 == NEWLINE) || (is_whitespace_byte_spec(
            c1,
        ) && !is_whitespace_byte_spec(c2)),
    }
}

impl WordEdgeMatch {
    /// If c1 -> c2 is the start of a word. If end-of-word matching is
    /// wanted then pass the bytes reversed. A blank line is always counted
    /// as a word boundary.
    pub fn is_word_edge(&self, c1: &u8, c2: &u8) -> (r: bool)
        ensures
            r == word_edge_bytes(*self, *c1, *c2),
    {
        match self {
            WordEdgeMatch::Whitespace => (*c1 == NEWLINE && *c2 == NEWLINE) || (is_whitespace_byte(
                *c1,
            ) && !is_whitespace_byte(*c2)),
        }
    }
}

/// Whether a word boundary lies between the bytes at `i - 1` and `i`.
pub open spec fn is_word_edge_at(m: WordEdgeMatch, t: Seq<u8>, i: int) -> bool
    recommends
        1 <= i < t.len(),
{
    word_edge_bytes(m, t[i - 1], t[i])
}

/// The index of the (k+1)-th word boundary at an index in `[lo, hi)`,
/// scanning forward, if that many exist.
pub open spec fn nth_word_edge_in(m: WordEdgeMatch, t: Seq<u8>, lo: int, hi: int, k: nat) -> Option<
    int,
>
    decreases hi - lo,
{
    if lo >= hi || lo < 1 || hi > t.len() {
        None
    } else if is_word_edge_at(m, t, lo) {
        if k == 0 {
            Some(lo)
        } else {
            nth_word_edge_in(m, t, lo + 1, hi, (k - 1) as nat)
        }
    } else {
        nth_word_edge_in(m, t, lo + 1, hi, k)
    }
}

/// The index of the (k+1)-th word boundary at an index in `[1, from)`,
/// scanning backward, if that many exist.
pub open spec fn nth_word_edge_back(m: WordEdgeMatch, t: Seq<u8>, from: int, k: nat) -> Option<int>
    decreases from,
{
    if from <= 1 || from > t.len() {
        None
    } else if is_word_edge_at(m, t, from - 1) {
        if k == 0 {
            Some(from - 1)
        } else {
            nth_word_edge_back(m, t, from - 1, (k - 1) as nat)
        }
    } else {
        nth_word_edge_back(m, t, from - 1, k)
    }
}

/// A found forward word boundary lies within the scanned range.
pub proof fn lemma_nth_word_edge_in(m: WordEdgeMatch, t: Seq<u8>, lo: int, hi: int, k: nat)
    ensures
        match nth_word_edge_in(m, t, lo, hi, k) {
            Some(i) => 1 <= lo <= i < hi <= t.len(),
            None => true,
        },
    decreases hi - lo,
{
    if lo >= hi || lo < 1 || hi > t.len() {
    } else if is_word_edge_at(m, t, lo) {
        if k > 0 {
            lemma_nth_word_edge_in(m, t, lo + 1, hi, (k - 1) as nat);
        }
    } else {
        lemma_nth_word_edge_in(m, t, lo + 1, hi, k);
    }
}

/// A found backward word boundary lies within the scanned range.
pub proof fn lemma_nth_word_edge_back(m: WordEdgeMatch, t: Seq<u8>, from: int, k: nat)
    ensures
        match nth_word_edge_back(m, t, from, k) {
            Some(i) => 1 <= i < from <= t.len(),
            None => true,
        },
    decreases from,
{
    if from <= 1 || from > t.len() {
    } else if is_word_edge_at(m, t, from - 1) {
        if k > 0 {
            lemma_nth_word_edge_back(m, t, from - 1, (k - 1) as nat);
        }
    } else {
        lemma_nth_word_edge_back(m, t, from - 1, k);
    }
}

/// Find the (k+1)-th word boundary at an index in `[lo, hi)`.
fn find_nth_word_edge(
    edger: WordEdgeMatch,
    text: &GapBuffer<u8>,
    lo: usize,
    hi: usize,
    k: usize,
) -> (r: Option<usize>)
    requires
        1 <= lo,
        hi <= gb_contents(*text).len(),
    ensures
        ({
            let s = nth_word_edge_in(edger, gb_contents(*text), lo as int, hi as int, k as nat);
            match r {
                Some(i) => s == Some(i as int),
                None => s is None,
            }
        }),
{
    let mut i: usize = lo;
    let mut rem: usize = k;
    while i < hi
        invariant
            1 <= lo <= i,
            hi <= gb_contents(*text).len(),
            nth_word_edge_in(edger, gb_contents(*text), lo as int, hi as int, k as nat)
                == nth_word_edge_in(edger, gb_contents(*text), i as int, hi as int, rem as nat),
        decreases hi - i,
    {
        let c1 = gb_get(text, i - 1);
        let c2 = gb_get(text, i);
        if edger.is_word_edge(&c1, &c2) {
            if rem == 0 {
                return Some(i);
            }
            rem = rem - 1;
        }
        i = i + 1;
    }
    None
}

/// Find the (k+1)-th word boundary at an index in `[1, from)`, scanning
/// backward.
fn find_nth_word_edge_back(edger: WordEdgeMatch, text: &GapBuffer<u8>, from: usize, k: usize) -> (r:
    Option<usize>)
    requires
        from <= gb_contents(*text).len(),
    ensures
        ({
            let s = nth_word_edge_back(edger, gb_contents(*text), from as int, k as nat);
            match r {
                Some(i) => s == Some(i as int),
                None => s is None,
            }
        }),
{
    let mut i: usize = from;
    let mut rem: usize = k;
    while i > 1
        invariant
            i <= from <= gb_contents(*text).len(),
            nth_word_edge_back(edger, gb_contents(*text), from as int, k as nat)
                == nth_word_edge_back(edger, gb_contents(*text), i as int, rem as nat),
        decreases i,
    {
        let c1 = gb_get(text, i - 2);
        let c2 = gb_get(text, i - 1);
        if edger.is_word_edge(&c1, &c2) {
            if rem == 0 {
                return Some(i - 1);
            }
            rem = rem - 1;
        }
        i = i - 1;
    }
    None
}

/// Where the `n_words`-th word boundary after `mark` lies, if that many
/// exist in range; boundaries at the very last index are not considered.
pub open spec fn get_words_spec(t: Seq<u8>, mark: int, n_words: nat, edger: WordEdgeMatch) -> Option<
    int,
> {
    if t.len() == 0 || n_words == 0 {
        None
    } else {
        nth_word_edge_in(edger, t, mark + 1, t.len() - 1, (n_words - 1) as nat)
    }
}

/// Where the `n_words`-th word boundary before `mark` lies, if that many
/// exist.
pub open spec fn get_words_rev_spec(t: Seq<u8>, mark: int, n_words: nat, edger: WordEdgeMatch) -> Option<
    int,
> {
    if n_words == 0 {
        None
    } else {
        nth_word_edge_back(edger, t, mark, (n_words - 1) as nat)
    }
}

/// The offset of the `n_words`-th word boundary after `mark`.
pub fn get_words(mark: usize, n_words: usize, edger: WordEdgeMatch, text: &GapBuffer<u8>) -> (r:
    Option<usize>)
    requires
        mark <= gb_contents(*text).len(),
        gb_contents(*text).len() <= MAX_TEXT,
    ensures
        ({
            let s = get_words_spec(gb_contents(*text), mark as int, n_words as nat, edger);
            match r {
                Some(i) => s == Some(i as int),
                None => s is None,
            }
        }),
{
    let text_len = gb_len(text);
    if text_len == 0 || n_words == 0 {
        return None;
    }
    find_nth_word_edge(edger, text, mark + 1, text_len - 1, n_words - 1)
}

/// The offset of the `n_words`-th word boundary before `mark`.
pub fn get_words_rev(mark: usize, n_words: usize, edger: WordEdgeMatch, text: &GapBuffer<u8>) -> (r:
    Option<usize>)
    requires
        mark <= gb_contents(*text).len(),
    ensures
        ({
            let s = get_words_rev_spec(gb_contents(*text), mark as int, n_words as nat, edger);
            match r {
                Some(i) => s == Some(i as int),
                None => s is None,
            }
        }),
{
    if n_words == 0 {
        return None;
    }
    find_nth_word_edge_back(edger, text, mark, n_words - 1)
}

/// The position cached for the first table entry bearing the given mark.
pub open spec fn find_mark_in(entries: Seq<(Mark, MarkPosition)>, m: Mark) -> Option<MarkPosition>
    decreases entries.len(),
{
    if entries.len() == 0 {
        None
    } else if entries[0].0 == m {
        Some(entries[0].1)
    } else {
        find_mark_in(entries.skip(1), m)
    }
}

/// Whether the mark table's keys are pairwise distinct.
pub open spec fn marks_unique(entries: Seq<(Mark, MarkPosition)>) -> bool {
    forall|i: int, j: int|
        0 <= i < j < entries.len() ==> (#[trigger] entries[i]).0 != (#[trigger] entries[j]).0
}

/// Looking a mark up finds the entry at the first index bearing it.
proof fn lemma_find_mark_at(entries: Seq<(Mark, MarkPosition)>, m: Mark, k: int)
    requires
        0 <= k < entries.len(),
        entries[k].0 == m,
        forall|j: int| 0 <= j < k ==> (#[trigger] entries[j]).0 != m,
    ensures
        find_mark_in(entries, m) == Some(entries[k].1),
    decreases k,
{
    if k == 0 {
    } else {
        assert(entries[0].0 != m);
        assert(entries.skip(1)[k - 1] == entries[k]);
        assert forall|j: int| 0 <= j < k - 1 implies (#[trigger] entries.skip(1)[j]).0 != m by {
            assert(entries.skip(1)[j] == entries[j + 1]);
        }
        lemma_find_mark_at(entries.skip(1), m, k - 1);
    }
}

/// A mark borne by no entry is not found.
proof fn lemma_find_mark_absent(entries: Seq<(Mark, MarkPosition)>, m: Mark)
    requires
        forall|j: int| 0 <= j < entries.len() ==> (#[trigger] entries[j]).0 != m,
    ensures
        find_mark_in(entries, m) is None,
    decreases entries.len(),
{
    if entries.len() > 0 {
        assert forall|j: int| 0 <= j < entries.len() - 1 implies (#[trigger] entries.skip(1)[j]).0
            != m by {
            assert(entries.skip(1)[j] == entries[j + 1]);
        }
        lemma_find_mark_absent(entries.skip(1), m);
    }
}

/// Overwriting an entry whose key is not `m` leaves `m`'s lookup alone.
proof fn lemma_find_mark_update(
    entries: Seq<(Mark, MarkPosition)>,
    i: int,
    v: (Mark, MarkPosition),
    m: Mark,
)
    requires
        0 <= i < entries.len(),
        entries[i].0 != m,
        v.0 != m,
    ensures
        find_mark_in(entries.update(i, v), m) == find_mark_in(entries, m),
    decreases entries.len(),
{
    if i == 0 {
        assert(entries.update(0, v)[0] == v);
        assert(entries.update(0, v).skip(1) =~= entries.skip(1));
    } else {
        assert(entries.update(i, v)[0] == entries[0]);
        assert(entries.update(i, v).skip(1) =~= entries.skip(1).update(i - 1, v));
        lemma_find_mark_update(entries.skip(1), i - 1, v, m);
    }
}

/// Appending an entry changes a lookup only for a mark not found before.
proof fn lemma_find_mark_push(entries: Seq<(Mark, MarkPosition)>, e: (Mark, MarkPosition), m: Mark)
    ensures
        find_mark_in(entries.push(e), m) == match find_mark_in(entries, m) {
            Some(p) => Some(p),
            None => if e.0 == m {
                Some(e.1)
            } else {
                None
            },
        },
    decreases entries.len(),
{
    if entries.len() == 0 {
        assert(entries.push(e)[0] == e);
        assert(entries.push(e).skip(1) =~= Seq::<(Mark, MarkPosition)>::empty());
        assert(find_mark_in(Seq::<(Mark, MarkPosition)>::empty(), m) is None);
        assert(find_mark_in(entries, m) is None);
    } else {
        assert(entries.push(e)[0] == entries[0]);
        assert(entries.push(e).skip(1) =~= entries.skip(1).push(e));
        lemma_find_mark_push(entries.skip(1), e, m);
        if entries[0].0 != m {
            assert(find_mark_in(entries, m) == find_mark_in(entries.skip(1), m));
            assert(find_mark_in(entries.push(e), m) == find_mark_in(entries.skip(1).push(e), m));
        }
    }
}

/// A found position belongs to some table entry.
proof fn lemma_find_mark_is_entry(entries: Seq<(Mark, MarkPosition)>, m: Mark)
    requires
        find_mark_in(entries, m) is Some,
    ensures
        exists|k: int|
            0 <= k < entries.len() && (#[trigger] entries[k]) == (m, find_mark_in(
                entries,
                m,
            )->Some_0),
    decreases entries.len(),
{
    if entries.len() > 0 {
        if entries[0].0 == m {
            assert(entries[0] == (m, find_mark_in(entries, m)->Some_0));
        } else {
            lemma_find_mark_is_entry(entries.skip(1), m);
            let k = choose|k: int|
                0 <= k < entries.skip(1).len() && (#[trigger] entries.skip(1)[k]) == (
                m,
                find_mark_in(entries.skip(1), m)->Some_0,
                );
            assert(entries[k + 1] == entries.skip(1)[k]);
        }
    }
}

/// Look a mark up in the table, returning the index of its entry.
fn find_mark_index(marks: &Vec<(Mark, MarkPosition)>, m: Mark) -> (r: Option<usize>)
    ensures
        match r {
            Some(k) => k < marks@.len() && marks@[k as int].0 == m && (forall|j: int|
                0 <= j < k ==> (#[trigger] marks@[j]).0 != m) && find_mark_in(marks@, m) == Some(
                marks@[k as int].1,
            ),
            None => find_mark_in(marks@, m) is None,
        },
{
    let mut i: usize = 0;
    while i < marks.len()
        invariant
            i <= marks@.len(),
            forall|j: int| 0 <= j < i ==> (#[trigger] marks@[j]).0 != m,
        decreases marks@.len() - i,
    {
        if marks[i].0 == m {
            proof {
                lemma_find_mark_at(marks@, m, i as int);
            }
            return Some(i);
        }
        i = i + 1;
    }
    proof {
        lemma_find_mark_absent(marks@, m);
    }
    None
}

/// The buffer: the stored text, the mark table, the transaction history,
/// and the bookkeeping around them.
pub struct Buffer {
    /// Current buffer text.
    pub text: GapBuffer<u8>,
    /// Transaction history (used for undo/redo).
    pub log: Log,
    /// Table of marked positions in the text.
    pub marks: Vec<(Mark, MarkPosition)>,
    /// Where the content came from, if anywhere; kept for later saves.
    pub file_path: Option<String>,
    /// Whether or not the buffer has unsaved changes.
    pub dirty: bool,
}

impl Buffer {
    /// The bytes currently stored.
    pub open spec fn content(self) -> Seq<u8> {
        gb_contents(self.text)
    }

    /// The position cached for a mark, if the mark is set.
    pub open spec fn mark_of(self, m: Mark) -> Option<MarkPosition> {
        find_mark_in(self.marks@, m)
    }

    /// Well-formedness: the text stays below the growth bound, the mark
    /// table's keys are unique, every cached position keeps its line start
    /// at or before its offset, and both history stacks replay cleanly
    /// against the current content.
    pub open spec fn wf(self) -> bool {
        &&& self.content().len() <= MAX_TEXT
        &&& marks_unique(self.marks@)
        &&& (forall|k: int|
            0 <= k < self.marks@.len() ==> (#[trigger] self.marks@[k]).1.absolute_line_start
                <= self.marks@[k].1.absolute)
        &&& undo_stack_valid(self.content(), self.log.undo_stack@)
        &&& redo_stack_valid(self.content(), self.log.redo_stack@)
    }

    /// Everything an edit could touch is as it was: the content, the dirty
    /// flag and both history stacks.
    pub open spec fn edit_state_unchanged(pre: Buffer, post: Buffer) -> bool {
        &&& post.content() == pre.content()
        &&& post.dirty == pre.dirty
        &&& post.log.undo_stack@ == pre.log.undo_stack@
        &&& post.log.redo_stack@ == pre.log.redo_stack@
    }

    /// Constructor for an empty buffer.
    pub fn new() -> (r: Buffer)
        ensures
            r.wf(),
            r.content() == Seq::<u8>::empty(),
            r.marks@.len() == 0,
            r.log.undo_stack@.len() == 0,
            r.log.redo_stack@.len() == 0,
            r.file_path is None,
            !r.dirty,
    {
        Buffer {
            text: gb_new(),
            marks: Vec::new(),
            file_path: None,
            log: Log::new(),
            dirty: false,
        }
    }

    /// Build a buffer holding the given bytes, with no marks, no history
    /// and no path.
    pub fn from_bytes(bytes: &[u8]) -> (r: Buffer)
        requires
            bytes@.len() <= MAX_TEXT,
        ensures
            r.wf(),
            r.content() == bytes@,
            r.marks@.len() == 0,
            r.log.undo_stack@.len() == 0,
            r.log.redo_stack@.len() == 0,
            r.file_path is None,
            !r.dirty,
    {
        let mut buf = Buffer::new();
        let mut i: usize = 0;
        assert(gb_contents(buf.text) =~= bytes@.take(0));
        while i < bytes.len()
            invariant
                i <= bytes@.len() <= MAX_TEXT,
                gb_contents(buf.text) == bytes@.take(i as int),
                buf.marks@.len() == 0,
                buf.log.undo_stack@.len() == 0,
                buf.log.redo_stack@.len() == 0,
                buf.file_path is None,
                !buf.dirty,
            decreases bytes@.len() - i,
        {
            let b = bytes[i];
            gb_insert(&mut buf.text, i, b);
            assert(bytes@.take(i as int).insert(i as int, b) =~= bytes@.take(i + 1));
            i = i + 1;
        }
        assert(bytes@.take(bytes@.len() as int) =~= bytes@);
        buf
    }

    /// Length of the text stored in this buffer: the stored byte count
    /// plus the one virtual end slot.
    pub fn len(&self) -> (r: usize)
        requires
            self.wf(),
        ensures
            r == self.content().len() + 1,
    {
        gb_len(&self.text) + 1
    }

    /// Sets the mark to a given absolute index (clamped into range), adding
    /// a new table entry or overwriting an existing entry in place.
    pub fn set_mark(&mut self, mark: Mark, idx: usize)
        requires
            old(self).wf(),
        ensures
            final(self).wf(),
            Buffer::edit_state_unchanged(*old(self), *final(self)),
            final(self).file_path == old(self).file_path,
            ({
                let t = old(self).content();
                let val = if idx <= t.len() {
                    idx as int
                } else {
                    t.len() as int
                };
                final(self).mark_of(mark) == Some(resolved_at(t, val))
            }),
            forall|m2: Mark| m2 != mark ==> final(self).mark_of(m2) == old(self).mark_of(m2),
    {
        let ghost t = self.content();
        let ghost val: int = if idx <= t.len() {
            idx as int
        } else {
            t.len() as int
        };
        let pos = match get_line_info(idx, &self.text) {
            Some(p) => p,
            None => {
                return ;
            },
        };
        proof {
            lemma_resolved_at_consistent(t, val);
        }
        match find_mark_index(&self.marks, mark) {
            Some(i) => {
                let entry = &mut self.marks[i];
                *entry = (mark, pos);
                proof {
                    assert(self.marks@ == old(self).marks@.update(i as int, (mark, pos)));
                    lemma_find_mark_at(self.marks@, mark, i as int);
                    assert(self.marks@[i as int].1 == pos);
                    assert forall|m2: Mark| m2 != mark implies find_mark_in(self.marks@, m2)
                        == find_mark_in(old(self).marks@, m2) by {
                        lemma_find_mark_update(old(self).marks@, i as int, (mark, pos), m2);
                    }
                }
            },
            None => {
                self.marks.push((mark, pos));
                proof {
                    assert forall|m2: Mark| m2 != mark implies find_mark_in(self.marks@, m2)
                        == find_mark_in(old(self).marks@, m2) by {
                        lemma_find_mark_push(old(self).marks@, (mark, pos), m2);
                    }
                    lemma_find_mark_push(old(self).marks@, (mark, pos), mark);
                    assert forall|k: int|
                        0 <= k < self.marks@.len() implies (
                        #[trigger] self.marks@[k]).1.absolute_line_start
                        <= self.marks@[k].1.absolute by {
                        if k < old(self).marks@.len() {
                            assert(self.marks@[k] == old(self).marks@[k]);
                        } else {
                            assert(self.marks@[k] == (mark, pos));
                        }
                    }
                    assert forall|j: int|
                        0 <= j < old(self).marks@.len() implies (#[trigger] old(
                        self,
                    ).marks@[j]).0 != mark by {
                        if old(self).marks@[j].0 == mark {
                            lemma_find_mark_at_exists(old(self).marks@, mark);
                        }
                    }
                }
            },
        }
    }

    /// The x,y coordinates of a mark within the file. Absent if the mark
    /// is not set.
    pub fn get_mark_display_coords(&self, mark: Mark) -> (r: Option<(usize, usize)>)
        requires
            self.wf(),
        ensures
            match self.mark_of(mark) {
                Some(p) => r == Some(
                    ((p.absolute - p.absolute_line_start) as usize, p.line_number),
                ),
                None => r is None,
            },
    {
        match find_mark_index(&self.marks, mark) {
            Some(i) => {
                let p = self.marks[i].1;
                Some((p.absolute - p.absolute_line_start, p.line_number))
            },
            None => None,
        }
    }

    /// The absolute index of a mark within the file. Absent if the mark is
    /// not set or its cached offset has fallen out of range.
    pub fn get_mark_idx(&self, mark: Mark) -> (r: Option<usize>)
        requires
            self.wf(),
        ensures
            match self.mark_of(mark) {
                Some(p) => r == if p.absolute < self.content().len() + 1 {
                    Some(p.absolute)
                } else {
                    None::<usize>
                },
                None => r is None,
            },
    {
        match find_mark_index(&self.marks, mark) {
            Some(i) => {
                let p = self.marks[i].1;
                if p.absolute < self.len() {
                    Some(p.absolute)
                } else {
                    None
                }
            },
            None => None,
        }
    }
}

impl Buffer {
    /// Where a character request lands: relative requests clamp forward
    /// motion to the last valid offset and fail on backward underflow;
    /// absolute requests yield a partially resolved position whose line
    /// metadata is intentionally left zeroed.
    pub open spec fn char_index_spec(self, offset: Offset) -> Option<MarkPosition> {
        let t = self.content();
        let last = t.len() as int;
        match offset {
            Offset::Forward(n, m) => match self.mark_of(m) {
                Some(p) => {
                    let target = if p.absolute + n < last {
                        p.absolute + n
                    } else {
                        last
                    };
                    Some(resolved_at(t, target))
                },
                None => None,
            },
            Offset::Backward(n, m) => match self.mark_of(m) {
                Some(p) => if p.absolute >= n {
                    let target = p.absolute - n;
                    Some(
                        resolved_at(
                            t,
                            if target <= last {
                                target
                            } else {
                                last
                            },
                        ),
                    )
                } else {
                    None
                },
                None => None,
            },
            Offset::Absolute(n) => Some(
                MarkPosition { absolute: n, absolute_line_start: 0, line_number: 0 },
            ),
        }
    }

    /// Where a line request lands. Forward and backward requests scan for
    /// newline boundaries from the mark; requests past the final (or
    /// first) line clamp to the last valid offset (or the buffer start).
    /// The `Same` anchor re-applies the mark's column into the target
    /// line, clamped to that line's end. Absolute requests land around the
    /// `(line_number+1)`-th newline of the buffer. Anchors a given request
    /// kind does not handle resolve to nothing.
    pub open spec fn line_index_spec(self, offset: Offset, anchor: Anchor) -> Option<MarkPosition> {
        let t = self.content();
        let len = t.len() as int;
        match offset {
            Offset::Forward(n, m) => match self.mark_of(m) {
                Some(mp) => {
                    let p = if mp.absolute <= len {
                        mp.absolute as int
                    } else {
                        len
                    };
                    let col = mp.absolute - mp.absolute_line_start;
                    match anchor {
                        Anchor::End => {
                            let target = match nth_newline_from(t, p, n as nat) {
                                Some(i) => i,
                                None => len,
                            };
                            Some(resolved_at(t, target))
                        },
                        Anchor::Same => {
                            if n == 0 {
                                let s = line_start_at(t, p);
                                let e = match nth_newline_from(t, p, 0) {
                                    Some(i) => i,
                                    None => len,
                                };
                                Some(
                                    resolved_at(
                                        t,
                                        if s + col <= e {
                                            s + col
                                        } else {
                                            e
                                        },
                                    ),
                                )
                            } else {
                                match nth_newline_from(t, p, (n - 1) as nat) {
                                    Some(i) => {
                                        let s = i + 1;
                                        let e = match nth_newline_from(t, p, n as nat) {
                                            Some(j) => j,
                                            None => len,
                                        };
                                        Some(
                                            resolved_at(
                                                t,
                                                if s + col <= e {
                                                    s + col
                                                } else {
                                                    e
                                                },
                                            ),
                                        )
                                    },
                                    None => Some(resolved_at(t, len)),
                                }
                            }
                        },
                        _ => None,
                    }
                },
                None => None,
            },
            Offset::Backward(n, m) => match self.mark_of(m) {
                Some(mp) => {
                    let p = if mp.absolute <= len {
                        mp.absolute as int
                    } else {
                        len
                    };
                    let col = mp.absolute - mp.absolute_line_start;
                    match anchor {
                        Anchor::Start => match nth_newline_back(t, p, n as nat) {
                            Some(i) => Some(resolved_at(t, i + 1)),
                            None => Some(MarkPosition::start_spec()),
                        },
                        Anchor::Same => {
                            if n == 0 {
                                Some(MarkPosition::start_spec())
                            } else {
                                match nth_newline_back(t, p, (n - 1) as nat) {
                                    Some(j) => {
                                        let s = match nth_newline_back(t, p, n as nat) {
                                            Some(i) => i + 1,
                                            None => 0,
                                        };
                                        Some(
                                            resolved_at(
                                                t,
                                                if s + col <= j {
                                                    s + col
                                                } else {
                                                    j
                                                },
                                            ),
                                        )
                                    },
                                    None => Some(MarkPosition::start_spec()),
                                }
                            }
                        },
                        _ => None,
                    }
                },
                None => None,
            },
            Offset::Absolute(ln) => match anchor {
                Anchor::Start => match nth_newline_from(t, 0, ln as nat) {
                    Some(i) => Some(resolved_at(t, i + 1)),
                    None => None,
                },
                Anchor::End => match nth_newline_from(t, 0, ln as nat) {
                    Some(i) => Some(resolved_at(t, i)),
                    None => None,
                },
                _ => None,
            },
        }
    }

    /// Where a word request lands, under the whitespace boundary strategy.
    /// Forward requests past the last boundary clamp to the last valid
    /// offset, backward requests past the first clamp to the buffer start,
    /// and absolute requests fail when the buffer holds too few words.
    /// Anchors other than `Start` are unhandled by design and degenerate
    /// to the last valid offset (or, for absolute requests, to nothing).
    pub open spec fn word_index_spec(self, offset: Offset, anchor: Anchor) -> Option<MarkPosition> {
        let t = self.content();
        let len = t.len() as int;
        let edger = WordEdgeMatch::Whitespace;
        match offset {
            Offset::Forward(n, m) => match self.mark_of(m) {
                Some(mp) => {
                    let p = if mp.absolute <= len {
                        mp.absolute as int
                    } else {
                        len
                    };
                    match anchor {
                        Anchor::Start => match get_words_spec(t, p, n as nat, edger) {
                            Some(i) => Some(resolved_at(t, i)),
                            None => Some(resolved_at(t, len)),
                        },
                        _ => Some(resolved_at(t, len)),
                    }
                },
                None => None,
            },
            Offset::Backward(n, m) => match self.mark_of(m) {
                Some(mp) => {
                    let p = if mp.absolute <= len {
                        mp.absolute as int
                    } else {
                        len
                    };
                    match anchor {
                        Anchor::Start => match get_words_rev_spec(t, p, n as nat, edger) {
                            Some(i) => Some(resolved_at(t, i)),
                            None => Some(MarkPosition::start_spec()),
                        },
                        _ => Some(resolved_at(t, len)),
                    }
                },
                None => None,
            },
            Offset::Absolute(w) => match anchor {
                Anchor::Start => if w == 0 {
                    None
                } else {
                    match get_words_spec(t, 0, (w - 1) as nat, edger) {
                        Some(i) => Some(resolved_at(t, i)),
                        None => None,
                    }
                },
                _ => None,
            },
        }
    }

    /// Where a navigation request lands: dispatch on its granularity.
    pub open spec fn object_index_spec(self, obj: TextObject) -> Option<MarkPosition> {
        match obj.kind {
            Kind::Char => self.char_index_spec(obj.offset),
            Kind::Line(anchor) => self.line_index_spec(obj.offset, anchor),
            Kind::Word(anchor) => self.word_index_spec(obj.offset, anchor),
        }
    }

    /// Get the position of a specific character in the buffer, at an
    /// absolute position or relative to a given mark.
    fn get_char_index(&self, offset: Offset) -> (r: Option<MarkPosition>)
        requires
            self.wf(),
        ensures
            r == self.char_index_spec(offset),
    {
        let last = gb_len(&self.text);
        match offset {
            Offset::Forward(off, from_mark) => {
                match find_mark_index(&self.marks, from_mark) {
                    Some(k) => {
                        let mp = self.marks[k].1;
                        let target = if mp.absolute < last && off < last - mp.absolute {
                            mp.absolute + off
                        } else {
                            last
                        };
                        get_line_info(target, &self.text)
                    },
                    None => None,
                }
            },
            Offset::Backward(off, from_mark) => {
                match find_mark_index(&self.marks, from_mark) {
                    Some(k) => {
                        let mp = self.marks[k].1;
                        if mp.absolute >= off {
                            get_line_info(mp.absolute - off, &self.text)
                        } else {
                            None
                        }
                    },
                    None => None,
                }
            },
            Offset::Absolute(n) => {
                let mut mark_pos = MarkPosition::start();
                mark_pos.absolute = n;
                Some(mark_pos)
            },
        }
    }

    /// Get the position of a specific line in the buffer, relative to a
    /// given mark, with the anchor deciding where in the line it lands.
    fn get_line_index_forward(&self, anchor: Anchor, offset: usize, from_mark: Mark) -> (r: Option<
        MarkPosition,
    >)
        requires
            self.wf(),
        ensures
            r == self.line_index_spec(Offset::Forward(offset, from_mark), anchor),
    {
        let ghost t = self.content();
        let t_len = gb_len(&self.text);
        match find_mark_index(&self.marks, from_mark) {
            None => None,
            Some(k) => {
                let mp = self.marks[k].1;
                proof {
                    assert(self.marks@[k as int].1.absolute_line_start
                        <= self.marks@[k as int].1.absolute);
                }
                let p = if mp.absolute < t_len {
                    mp.absolute
                } else {
                    t_len
                };
                let col = mp.absolute - mp.absolute_line_start;
                match anchor {
                    Anchor::End => {
                        let target = match find_nth_newline_from(&self.text, p, offset) {
                            Some(i) => i,
                            None => t_len,
                        };
                        get_line_info(target, &self.text)
                    },
                    Anchor::Same => {
                        if offset == 0 {
                            let s = find_line_start(&self.text, p);
                            let e = match find_nth_newline_from(&self.text, p, 0) {
                                Some(i) => i,
                                None => t_len,
                            };
                            proof {
                                lemma_line_start_at(t, p as int);
                                lemma_nth_newline_from(t, p as int, 0);
                            }
                            let target = if col <= e - s {
                                s + col
                            } else {
                                e
                            };
                            get_line_info(target, &self.text)
                        } else {
                            match find_nth_newline_from(&self.text, p, offset - 1) {
                                Some(i) => {
                                    proof {
                                        lemma_nth_newline_from(t, p as int, (offset - 1) as nat);
                                    }
                                    let s = i + 1;
                                    let e = match find_nth_newline_from(&self.text, p, offset) {
                                        Some(j) => j,
                                        None => t_len,
                                    };
                                    proof {
                                        if nth_newline_from(t, p as int, offset as nat) is Some {
                                            lemma_nth_newline_from_mono(
                                                t,
                                                p as int,
                                                (offset - 1) as nat,
                                            );
                                        }
                                    }
                                    let target = if col <= e - s {
                                        s + col
                                    } else {
                                        e
                                    };
                                    get_line_info(target, &self.text)
                                },
                                None => get_line_info(t_len, &self.text),
                            }
                        }
                    },
                    _ => None,
                }
            },
        }
    }

    /// Get the position of a line a number of lines before a given mark.
    fn get_line_index_backward(&self, anchor: Anchor, offset: usize, from_mark: Mark) -> (r: Option<
        MarkPosition,
    >)
        requires
            self.wf(),
        ensures
            r == self.line_index_spec(Offset::Backward(offset, from_mark), anchor),
    {
        let ghost t = self.content();
        let t_len = gb_len(&self.text);
        match find_mark_index(&self.marks, from_mark) {
            None => None,
            Some(k) => {
                let mp = self.marks[k].1;
                proof {
                    assert(self.marks@[k as int].1.absolute_line_start
                        <= self.marks@[k as int].1.absolute);
                }
                let p = if mp.absolute < t_len {
                    mp.absolute
                } else {
                    t_len
                };
                let col = mp.absolute - mp.absolute_line_start;
                match anchor {
                    Anchor::Start => {
                        match find_nth_newline_back(&self.text, p, offset) {
                            Some(i) => get_line_info(i + 1, &self.text),
                            None => Some(MarkPosition::start()),
                        }
                    },
                    Anchor::Same => {
                        if offset == 0 {
                            Some(MarkPosition::start())
                        } else {
                            match find_nth_newline_back(&self.text, p, offset - 1) {
                                Some(j) => {
                                    proof {
                                        lemma_nth_newline_back(t, p as int, (offset - 1) as nat);
                                        if nth_newline_back(t, p as int, offset as nat) is Some {
                                            lemma_nth_newline_back_mono(
                                                t,
                                                p as int,
                                                (offset - 1) as nat,
                                            );
                                        }
                                    }
                                    let s = match find_nth_newline_back(&self.text, p, offset) {
                                        Some(i) => i + 1,
                                        None => 0,
                                    };
                                    let target = if col <= j - s {
                                        s + col
                                    } else {
                                        j
                                    };
                                    get_line_info(target, &self.text)
                                },
                                None => Some(MarkPosition::start()),
                            }
                        }
                    },
                    _ => None,
                }
            },
        }
    }

    /// Get the position of the line identified by an absolute line number.
    fn get_line_index_absolute(&self, anchor: Anchor, line_number: usize) -> (r: Option<
        MarkPosition,
    >)
        requires
            self.wf(),
        ensures
            r == self.line_index_spec(Offset::Absolute(line_number), anchor),
    {
        let ghost t = self.content();
        match anchor {
            Anchor::Start => {
                match find_nth_newline_from(&self.text, 0, line_number) {
                    Some(i) => get_line_info(i + 1, &self.text),
                    None => None,
                }
            },
            Anchor::End => {
                match find_nth_newline_from(&self.text, 0, line_number) {
                    Some(i) => get_line_info(i, &self.text),
                    None => None,
                }
            },
            _ => None,
        }
    }

    /// Get the position of a specific line in the buffer, absolute or
    /// relative to a mark, with the anchor deciding where in the line the
    /// resolved position lands.
    fn get_line_index(&self, offset: Offset, anchor: Anchor) -> (r: Option<MarkPosition>)
        requires
            self.wf(),
        ensures
            r == self.line_index_spec(offset, anchor),
    {
        match offset {
            Offset::Forward(off, from_mark) => self.get_line_index_forward(anchor, off, from_mark),
            Offset::Backward(off, from_mark) => self.get_line_index_backward(
                anchor,
                off,
                from_mark,
            ),
            Offset::Absolute(line_number) => self.get_line_index_absolute(anchor, line_number),
        }
    }

    /// Get the position of the start of a word a number of words after a
    /// given mark.
    fn get_word_index_forward(&self, anchor: Anchor, nth_word: usize, from_mark: Mark) -> (r:
        Option<MarkPosition>)
        requires
            self.wf(),
        ensures
            r == self.word_index_spec(Offset::Forward(nth_word, from_mark), anchor),
    {
        let ghost t = self.content();
        let t_len = gb_len(&self.text);
        let edger = WordEdgeMatch::Whitespace;
        match find_mark_index(&self.marks, from_mark) {
            None => None,
            Some(k) => {
                let mp = self.marks[k].1;
                let p = if mp.absolute < t_len {
                    mp.absolute
                } else {
                    t_len
                };
                match anchor {
                    Anchor::Start => {
                        match get_words(p, nth_word, edger, &self.text) {
                            Some(new_index) => {
                                proof {
                                    if t.len() > 0 && nth_word > 0 {
                                        lemma_nth_word_edge_in(
                                            edger,
                                            t,
                                            p + 1,
                                            t.len() - 1,
                                            (nth_word - 1) as nat,
                                        );
                                    }
                                }
                                get_line_info(new_index, &self.text)
                            },
                            None => get_line_info(t_len, &self.text),
                        }
                    },
                    _ => get_line_info(t_len, &self.text),
                }
            },
        }
    }

    /// Get the position of the start of a word a number of words before a
    /// given mark.
    fn get_word_index_backward(&self, anchor: Anchor, nth_word: usize, from_mark: Mark) -> (r:
        Option<MarkPosition>)
        requires
            self.wf(),
        ensures
            r == self.word_index_spec(Offset::Backward(nth_word, from_mark), anchor),
    {
        let ghost t = self.content();
        let t_len = gb_len(&self.text);
        let edger = WordEdgeMatch::Whitespace;
        match find_mark_index(&self.marks, from_mark) {
            None => None,
            Some(k) => {
                let mp = self.marks[k].1;
                let p = if mp.absolute < t_len {
                    mp.absolute
                } else {
                    t_len
                };
                match anchor {
                    Anchor::Start => {
                        match get_words_rev(p, nth_word, edger, &self.text) {
                            Some(new_index) => {
                                proof {
                                    if nth_word > 0 {
                                        lemma_nth_word_edge_back(
                                            edger,
                                            t,
                                            p as int,
                                            (nth_word - 1) as nat,
                                        );
                                    }
                                }
                                get_line_info(new_index, &self.text)
                            },
                            None => Some(MarkPosition::start()),
                        }
                    },
                    _ => get_line_info(t_len, &self.text),
                }
            },
        }
    }

    /// Get the position of the start of the word identified by an absolute
    /// 1-based word number.
    fn get_word_index_absolute(&self, anchor: Anchor, word_number: usize) -> (r: Option<
        MarkPosition,
    >)
        requires
            self.wf(),
        ensures
            r == self.word_index_spec(Offset::Absolute(word_number), anchor),
    {
        let ghost t = self.content();
        let edger = WordEdgeMatch::Whitespace;
        match anchor {
            Anchor::Start => {
                if word_number == 0 {
                    return None;
                }
                match get_words(0, word_number - 1, edger, &self.text) {
                    Some(new_index) => {
                        proof {
                            if t.len() > 0 && word_number > 1 {
                                lemma_nth_word_edge_in(
                                    edger,
                                    t,
                                    1,
                                    t.len() - 1,
                                    (word_number - 2) as nat,
                                );
                            }
                        }
                        get_line_info(new_index, &self.text)
                    },
                    None => None,
                }
            },
            _ => None,
        }
    }

    /// Get the position of the start of a word, absolute or relative to a
    /// mark.
    fn get_word_index(&self, offset: Offset, anchor: Anchor) -> (r: Option<MarkPosition>)
        requires
            self.wf(),
        ensures
            r == self.word_index_spec(offset, anchor),
    {
        match offset {
            Offset::Forward(nth_word, from_mark) => self.get_word_index_forward(
                anchor,
                nth_word,
                from_mark,
            ),
            Offset::Backward(nth_word, from_mark) => self.get_word_index_backward(
                anchor,
                nth_word,
                from_mark,
            ),
            Offset::Absolute(word_number) => self.get_word_index_absolute(anchor, word_number),
        }
    }

    /// Return the buffer position a navigation request resolves to.
    pub fn get_object_index(&self, obj: TextObject) -> (r: Option<MarkPosition>)
        requires
            self.wf(),
        ensures
            r == self.object_index_spec(obj),
    {
        match obj.kind {
            Kind::Char => self.get_char_index(obj.offset),
            Kind::Line(anchor) => self.get_line_index(obj.offset, anchor),
            Kind::Word(anchor) => self.get_word_index(obj.offset, anchor),
        }
    }

    /// Sets the mark to the location a navigation request resolves to, if
    /// it resolves. Adds a new mark or overwrites an existing mark.
    pub fn set_mark_to_object(&mut self, mark: Mark, obj: TextObject)
        requires
            old(self).wf(),
        ensures
            final(self).wf(),
            Buffer::edit_state_unchanged(*old(self), *final(self)),
            final(self).file_path == old(self).file_path,
            match old(self).object_index_spec(obj) {
                Some(p) => ({
                    let t = old(self).content();
                    let val = if p.absolute <= t.len() {
                        p.absolute as int
                    } else {
                        t.len() as int
                    };
                    &&& final(self).mark_of(mark) == Some(resolved_at(t, val))
                    &&& forall|m2: Mark|
                        m2 != mark ==> final(self).mark_of(m2) == old(self).mark_of(m2)
                }),
                None => final(self).marks@ == old(self).marks@,
            },
    {
        match self.get_object_index(obj) {
            Some(mark_pos) => {
                self.set_mark(mark, mark_pos.absolute);
            },
            None => {},
        }
    }
}

/// The lines of `text` from `start` on: each line ends just after its
/// newline, and the final segment runs to the end of the content. When
/// the content ends with a newline the final segment is empty, mirroring
/// the virtual end slot after the last byte.
pub open spec fn lines_from_spec(text: Seq<u8>, start: int) -> Seq<Seq<u8>>
    decreases text.len() - start,
    when 0 <= start <= text.len()
    via lines_from_spec_dec
{
    match nth_newline_from(text, start, 0) {
        Some(i) => seq![text.subrange(start, i + 1)] + lines_from_spec(text, i + 1),
        None => seq![text.subrange(start, text.len() as int)],
    }
}

#[via_fn]
proof fn lines_from_spec_dec(text: Seq<u8>, start: int) {
    match nth_newline_from(text, start, 0) {
        Some(i) => {
            lemma_nth_newline_from(text, start, 0);
        },
        None => {},
    }
}

/// Collect the lines of the text from `start` to the end.
fn collect_lines(text: &GapBuffer<u8>, start: usize) -> (r: Vec<Vec<u8>>)
    requires
        start <= gb_contents(*text).len(),
    ensures
        r.deep_view() == lines_from_spec(gb_contents(*text), start as int),
{
    let ghost t = gb_contents(*text);
    let t_len = gb_len(text);
    let mut out: Vec<Vec<u8>> = Vec::new();
    let mut pos: usize = start;
    proof {
        assert(out.deep_view() =~= Seq::<Seq<u8>>::empty());
        assert(lines_from_spec(t, start as int) =~= out.deep_view() + lines_from_spec(
            t,
            start as int,
        ));
    }
    loop
        invariant_except_break
            pos <= t_len,
            t_len == t.len(),
            t == gb_contents(*text),
            start <= pos,
            lines_from_spec(t, start as int) == out.deep_view() + lines_from_spec(t, pos as int),
        ensures
            out.deep_view() == lines_from_spec(t, start as int),
        decreases t_len - pos,
    {
        let ghost out0 = out.deep_view();
        match find_nth_newline_from(text, pos, 0) {
            Some(i) => {
                proof {
                    lemma_nth_newline_from(t, pos as int, 0);
                }
                let line = copy_bytes_range(text, pos, i + 1);
                out.push(line);
                proof {
                    assert(line.deep_view() =~= t.subrange(pos as int, i + 1));
                    assert(out.deep_view() =~= out0.push(t.subrange(pos as int, i + 1)));
                    assert(lines_from_spec(t, pos as int) == seq![t.subrange(pos as int, i + 1)]
                        + lines_from_spec(t, i + 1));
                    assert(out0.push(t.subrange(pos as int, i + 1)) + lines_from_spec(t, i + 1)
                        =~= out0 + lines_from_spec(t, pos as int));
                }
                pos = i + 1;
            },
            None => {
                let line = copy_bytes_range(text, pos, t_len);
                out.push(line);
                proof {
                    assert(line.deep_view() =~= t.subrange(pos as int, t.len() as int));
                    assert(out.deep_view() =~= out0.push(t.subrange(pos as int, t.len() as int)));
                    assert(lines_from_spec(t, pos as int) == seq![
                        t.subrange(pos as int, t.len() as int),
                    ]);
                    assert(out0.push(t.subrange(pos as int, t.len() as int)) =~= out0
                        + lines_from_spec(t, pos as int));
                }
                break ;
            },
        }
    }
    out
}

/// Copy the bytes of `[lo, hi)` out of the text.
fn copy_bytes_range(text: &GapBuffer<u8>, lo: usize, hi: usize) -> (r: Vec<u8>)
    requires
        lo <= hi <= gb_contents(*text).len(),
    ensures
        r@ == gb_contents(*text).subrange(lo as int, hi as int),
{
    let mut r: Vec<u8> = Vec::new();
    let mut i: usize = lo;
    assert(r@ =~= gb_contents(*text).subrange(lo as int, lo as int));
    while i < hi
        invariant
            lo <= i <= hi <= gb_contents(*text).len(),
            r@ == gb_contents(*text).subrange(lo as int, i as int),
        decreases hi - i,
    {
        let b = gb_get(text, i);
        r.push(b);
        assert(r@ =~= gb_contents(*text).subrange(lo as int, i + 1));
        i = i + 1;
    }
    r
}

/// What a range removal leaves behind: the clamped range `[lo, hi)` is cut
/// out of the content, the removed bytes come back in their original
/// left-to-right order, the buffer is dirty, and one new transaction
/// holding the removals (in descending offset order) tops the undo stack
/// while the redo stack is cleared.
pub open spec fn remove_range_post(
    pre: Buffer,
    post: Buffer,
    start: usize,
    end: usize,
    r: Option<Vec<u8>>,
) -> bool {
    let t = pre.content();
    let hi = if end <= t.len() {
        end as int
    } else {
        t.len() as int
    };
    let lo = if start as int <= hi {
        start as int
    } else {
        hi
    };
    &&& post.content() == t.subrange(0, lo) + t.subrange(hi, t.len() as int)
    &&& r is Some
    &&& r->Some_0@ == t.subrange(lo, hi)
    &&& post.dirty
    &&& post.log.undo_stack@.len() == pre.log.undo_stack@.len() + 1
    &&& post.log.undo_stack@.drop_last() == pre.log.undo_stack@
    &&& post.log.undo_stack@.last().idx == start
    &&& post.log.undo_stack@.last().changes@ == removal_changes(t, lo, hi)
    &&& post.log.redo_stack@.len() == 0
}

impl Buffer {
    /// Insert a byte at the mark. Records one `Insert` change in a fresh
    /// transaction and marks the buffer dirty. Does nothing if the mark is
    /// unset, or if its cached offset lies past the end of the content
    /// (a stale position is treated as unresolved).
    pub fn insert_char(&mut self, mark: Mark, ch: u8)
        requires
            old(self).wf(),
        ensures
            final(self).wf(),
            final(self).marks@ == old(self).marks@,
            final(self).file_path == old(self).file_path,
            ({
                let t = old(self).content();
                match old(self).mark_of(mark) {
                    Some(p) => if p.absolute <= t.len() && t.len() < MAX_TEXT {
                        &&& final(self).content() == t.insert(p.absolute as int, ch)
                        &&& final(self).dirty
                        &&& final(self).log.undo_stack@.len() == old(self).log.undo_stack@.len()
                            + 1
                        &&& final(self).log.undo_stack@.drop_last() == old(self).log.undo_stack@
                        &&& final(self).log.undo_stack@.last().idx == p.absolute
                        &&& final(self).log.undo_stack@.last().changes@ == seq![
                            Change::Insert(p.absolute, ch),
                        ]
                        &&& final(self).log.redo_stack@.len() == 0
                    } else {
                        Buffer::edit_state_unchanged(*old(self), *final(self))
                    },
                    None => Buffer::edit_state_unchanged(*old(self), *final(self)),
                }
            }),
    {
        let ghost t = old(self).content();
        match find_mark_index(&self.marks, mark) {
            Some(k) => {
                let p = self.marks[k].1;
                let len = gb_len(&self.text);
                if p.absolute <= len && len < MAX_TEXT {
                    let a = p.absolute;
                    gb_insert(&mut self.text, a, ch);
                    self.log.start(a);
                    self.log.record(Change::Insert(a, ch));
                    self.dirty = true;
                    proof {
                        let cs = seq![Change::Insert(a, ch)];
                        lemma_insert_round_trip(t, a, ch);
                        lemma_edit_round_trip(t, cs);
                        let t2 = apply_changes(t, cs);
                        assert(self.content() == t2);
                        assert(Seq::<Change>::empty().push(Change::Insert(a, ch)) =~= cs);
                        let stack2 = self.log.undo_stack@;
                        assert(stack2.last().changes@ == cs);
                        assert(stack2.drop_last() == old(self).log.undo_stack@);
                        assert(undo_stack_valid(t2, stack2)) by {
                            assert(changes_applicable(t2, invert_changes(cs)));
                            assert(apply_changes(t2, invert_changes(cs)) == t);
                            assert(undo_stack_valid(t, stack2.drop_last()));
                        }
                        assert(redo_stack_valid(t2, self.log.redo_stack@));
                    }
                }
            },
            None => {},
        }
    }

    /// Remove the bytes in the range from `start` to `end` (clamped to the
    /// content), returning them in their original left-to-right order.
    /// The removal proceeds from the end of the range backward, recording
    /// one `Remove` change per byte in a single fresh transaction, and
    /// marks the buffer dirty.
    pub fn remove_range(&mut self, start: usize, end: usize) -> (r: Option<Vec<u8>>)
        requires
            old(self).wf(),
        ensures
            final(self).wf(),
            final(self).marks@ == old(self).marks@,
            final(self).file_path == old(self).file_path,
            remove_range_post(*old(self), *final(self), start, end, r),
    {
        let ghost t = old(self).content();
        self.dirty = true;
        let len = gb_len(&self.text);
        let hi = if end < len {
            end
        } else {
            len
        };
        let lo = if start < hi {
            start
        } else {
            hi
        };
        let removed = copy_bytes_range(&self.text, lo, hi);
        self.log.start(start);
        let mut idx: usize = hi;
        proof {
            assert(removal_changes(t, idx as int, hi as int) =~= Seq::<Change>::empty());
            assert(t.subrange(0, idx as int) + t.subrange(hi as int, t.len() as int) =~= t);
        }
        while idx > lo
            invariant
                lo <= idx <= hi <= t.len(),
                t.len() <= MAX_TEXT,
                t == gb_contents(old(self).text),
                self.content() == t.subrange(0, idx as int) + t.subrange(
                    hi as int,
                    t.len() as int,
                ),
                self.log.undo_stack@.len() == old(self).log.undo_stack@.len() + 1,
                self.log.undo_stack@.drop_last() == old(self).log.undo_stack@,
                self.log.undo_stack@.last().idx == start,
                self.log.undo_stack@.last().changes@ == removal_changes(t, idx as int, hi as int),
                self.log.redo_stack@.len() == 0,
                changes_applicable(t, removal_changes(t, idx as int, hi as int)),
                apply_changes(t, removal_changes(t, idx as int, hi as int)) == self.content(),
                self.marks == old(self).marks,
                self.file_path == old(self).file_path,
                self.dirty,
            decreases idx,
        {
            let i = idx - 1;
            let ghost pre = self.content();
            proof {
                assert(pre[i as int] == t[i as int]);
            }
            let b = gb_remove(&mut self.text, i).unwrap();
            self.log.record(Change::Remove(i, b));
            proof {
                let cs = removal_changes(t, idx as int, hi as int);
                let c = Change::Remove(i, b);
                assert(self.content() == pre.remove(i as int));
                assert(pre.remove(i as int) =~= t.subrange(0, i as int) + t.subrange(
                    hi as int,
                    t.len() as int,
                ));
                lemma_apply_push(t, cs, c);
                assert(change_applicable(apply_changes(t, cs), c));
                assert(cs.push(c) =~= removal_changes(t, i as int, hi as int));
            }
            idx = i;
        }
        proof {
            let cs = removal_changes(t, lo as int, hi as int);
            lemma_edit_round_trip(t, cs);
            let t2 = self.content();
            assert(undo_stack_valid(t2, self.log.undo_stack@)) by {
                assert(changes_applicable(t2, invert_changes(cs)));
                assert(apply_changes(t2, invert_changes(cs)) == t);
                assert(undo_stack_valid(t, self.log.undo_stack@.drop_last()));
            }
            assert(redo_stack_valid(t2, self.log.redo_stack@));
            assert(t2.len() <= t.len());
        }
        Some(removed)
    }

    /// Remove the span covered by a navigation request: resolve a
    /// `Start`-anchored and an `End`-anchored variant of the same request
    /// and remove the bytes between them. Removes nothing if either
    /// endpoint fails to resolve.
    pub fn remove_object(&mut self, object: TextObject) -> (r: Option<Vec<u8>>)
        requires
            old(self).wf(),
        ensures
            final(self).wf(),
            final(self).marks@ == old(self).marks@,
            final(self).file_path == old(self).file_path,
            ({
                let start_obj = (TextObject {
                    kind: object.kind.spec_with_anchor(Anchor::Start),
                    offset: object.offset,
                });
                let end_obj = (TextObject {
                    kind: object.kind.spec_with_anchor(Anchor::End),
                    offset: object.offset,
                });
                match (old(self).object_index_spec(start_obj), old(self).object_index_spec(
                    end_obj,
                )) {
                    (Some(sp), Some(ep)) => remove_range_post(
                        *old(self),
                        *final(self),
                        sp.absolute,
                        ep.absolute,
                        r,
                    ),
                    _ => r is None && Buffer::edit_state_unchanged(*old(self), *final(self)),
                }
            }),
    {
        let object_start = TextObject {
            kind: object.kind.with_anchor(Anchor::Start),
            offset: object.offset,
        };
        let object_end = TextObject {
            kind: object.kind.with_anchor(Anchor::End),
            offset: object.offset,
        };
        let start = self.get_object_index(object_start);
        let end = self.get_object_index(object_end);
        if let (Some(start_pos), Some(end_pos)) = (start, end) {
            return self.remove_range(start_pos.absolute, end_pos.absolute);
        }
        None
    }

    /// Remove the bytes between a mark's current offset and the position a
    /// navigation request resolves to, whichever order the two lie in.
    /// Removes nothing if the mark is unset or the request fails to
    /// resolve.
    pub fn remove_from_mark_to_object(&mut self, mark: Mark, object: TextObject) -> (r: Option<
        Vec<u8>,
    >)
        requires
            old(self).wf(),
        ensures
            final(self).wf(),
            final(self).marks@ == old(self).marks@,
            final(self).file_path == old(self).file_path,
            match (old(self).mark_of(mark), old(self).object_index_spec(object)) {
                (Some(mp), Some(op)) => ({
                    let a = if mp.absolute < op.absolute {
                        mp.absolute
                    } else {
                        op.absolute
                    };
                    let b = if mp.absolute < op.absolute {
                        op.absolute
                    } else {
                        mp.absolute
                    };
                    remove_range_post(*old(self), *final(self), a, b, r)
                }),
                _ => r is None && Buffer::edit_state_unchanged(*old(self), *final(self)),
            },
    {
        let mp = match find_mark_index(&self.marks, mark) {
            Some(k) => self.marks[k].1,
            None => {
                return None;
            },
        };
        let obj_pos = match self.get_object_index(object) {
            Some(p) => p,
            None => {
                return None;
            },
        };
        let (start, end) = if mp.absolute < obj_pos.absolute {
            (mp.absolute, obj_pos.absolute)
        } else {
            (obj_pos.absolute, mp.absolute)
        };
        self.remove_range(start, end)
    }

    /// Undo the most recently performed transaction: replay its byte-exact
    /// inverse against the content and move it to the redo stack. Returns
    /// the replayed inverse, or nothing when there is nothing to undo.
    pub fn undo(&mut self) -> (r: Option<LogEntry>)
        requires
            old(self).wf(),
        ensures
            final(self).wf(),
            final(self).marks@ == old(self).marks@,
            final(self).file_path == old(self).file_path,
            final(self).dirty == old(self).dirty,
            old(self).log.undo_stack@.len() == 0 ==> r is None && Buffer::edit_state_unchanged(
                *old(self),
                *final(self),
            ),
            old(self).log.undo_stack@.len() > 0 ==> ({
                let e = old(self).log.undo_stack@.last();
                &&& r is Some
                &&& r->Some_0.idx == e.idx
                &&& r->Some_0.changes@ == invert_changes(e.changes@)
                &&& final(self).content() == apply_changes(
                    old(self).content(),
                    invert_changes(e.changes@),
                )
                &&& final(self).log.undo_stack@ == old(self).log.undo_stack@.drop_last()
                &&& final(self).log.redo_stack@ == old(self).log.redo_stack@.push(e)
            }),
    {
        let ghost t = old(self).content();
        match self.log.undo() {
            Some(transaction) => {
                proof {
                    let e = old(self).log.undo_stack@.last();
                    assert(undo_stack_valid(t, old(self).log.undo_stack@));
                    assert(changes_applicable(t, invert_changes(e.changes@)));
                }
                commit(&transaction, &mut self.text);
                proof {
                    let e = old(self).log.undo_stack@.last();
                    let t2 = self.content();
                    lemma_undo_redo_round_trip(t, e.changes@);
                    assert(undo_stack_valid(t2, self.log.undo_stack@));
                    assert(redo_stack_valid(t2, self.log.redo_stack@)) by {
                        assert(self.log.redo_stack@.last() == e);
                        assert(self.log.redo_stack@.drop_last() =~= old(self).log.redo_stack@);
                        assert(changes_applicable(t2, e.changes@));
                        assert(apply_changes(t2, e.changes@) == t);
                        assert(redo_stack_valid(t, old(self).log.redo_stack@));
                    }
                }
                Some(transaction)
            },
            None => None,
        }
    }

    /// Redo the most recently undone transaction: replay its changes in
    /// their original order and move it back to the undo stack. Returns
    /// the replayed transaction, or nothing when there is nothing to redo.
    pub fn redo(&mut self) -> (r: Option<LogEntry>)
        requires
            old(self).wf(),
        ensures
            final(self).wf(),
            final(self).marks@ == old(self).marks@,
            final(self).file_path == old(self).file_path,
            final(self).dirty == old(self).dirty,
            old(self).log.redo_stack@.len() == 0 ==> r is None && Buffer::edit_state_unchanged(
                *old(self),
                *final(self),
            ),
            old(self).log.redo_stack@.len() > 0 ==> ({
                let e = old(self).log.redo_stack@.last();
                &&& r is Some
                &&& r->Some_0.idx == e.idx
                &&& r->Some_0.changes@ == e.changes@
                &&& final(self).content() == apply_changes(old(self).content(), e.changes@)
                &&& final(self).log.redo_stack@ == old(self).log.redo_stack@.drop_last()
                &&& final(self).log.undo_stack@ == old(self).log.undo_stack@.push(e)
            }),
    {
        let ghost t = old(self).content();
        match self.log.redo() {
            Some(transaction) => {
                proof {
                    let e = old(self).log.redo_stack@.last();
                    assert(redo_stack_valid(t, old(self).log.redo_stack@));
                    assert(changes_applicable(t, e.changes@));
                }
                commit(&transaction, &mut self.text);
                proof {
                    let e = old(self).log.redo_stack@.last();
                    let t2 = self.content();
                    lemma_edit_round_trip(t, e.changes@);
                    assert(redo_stack_valid(t2, self.log.redo_stack@));
                    assert(undo_stack_valid(t2, self.log.undo_stack@)) by {
                        assert(self.log.undo_stack@.last() == e);
                        assert(self.log.undo_stack@.drop_last() =~= old(self).log.undo_stack@);
                        assert(changes_applicable(t2, invert_changes(e.changes@)));
                        assert(apply_changes(t2, invert_changes(e.changes@)) == t);
                        assert(undo_stack_valid(t, old(self).log.undo_stack@));
                    }
                }
                Some(transaction)
            },
            None => None,
        }
    }
}

impl Buffer {
    /// The text split into lines, from the start of the buffer.
    pub fn lines(&self) -> (r: Vec<Vec<u8>>)
        requires
            self.wf(),
        ensures
            r.deep_view() == lines_from_spec(self.content(), 0),
    {
        collect_lines(&self.text, 0)
    }

    /// The text split into lines, beginning at the specified mark. Absent
    /// if the mark is unset or its cached offset lies outside the logical
    /// length.
    pub fn lines_from(&self, mark: Mark) -> (r: Option<Vec<Vec<u8>>>)
        requires
            self.wf(),
        ensures
            match self.mark_of(mark) {
                Some(p) => if p.absolute <= self.content().len() {
                    r is Some && r->Some_0.deep_view() == lines_from_spec(
                        self.content(),
                        p.absolute as int,
                    )
                } else {
                    r is None
                },
                None => r is None,
            },
    {
        match find_mark_index(&self.marks, mark) {
            Some(k) => {
                let p = self.marks[k].1;
                if p.absolute < self.len() {
                    Some(collect_lines(&self.text, p.absolute))
                } else {
                    None
                }
            },
            None => None,
        }
    }

    /// The position cached for a set mark keeps its line start at or
    /// before its offset.
    proof fn lemma_mark_entry_consistent(self, m: Mark)
        requires
            self.wf(),
            self.mark_of(m) is Some,
        ensures
            self.mark_of(m)->Some_0.absolute_line_start <= self.mark_of(m)->Some_0.absolute,
    {
        lemma_find_mark_is_entry(self.marks@, m);
        let k = choose|k: int|
            0 <= k < self.marks@.len() && (#[trigger] self.marks@[k]) == (
            m,
            self.mark_of(m)->Some_0,
            );
        assert(self.marks@[k].1.absolute_line_start <= self.marks@[k].1.absolute);
    }

    /// Line metadata consistency: every position the resolver fully
    /// resolves — every result except a character request's intentionally
    /// partial `Absolute` form — keeps its line start at or before its
    /// offset, stays inside the buffer's logical length, and counts in
    /// `line_number` exactly the newlines before its line start.
    pub proof fn lemma_object_index_consistent(self, obj: TextObject)
        requires
            self.wf(),
            !(obj.kind is Char && obj.offset is Absolute),
        ensures
            match self.object_index_spec(obj) {
                Some(p) => p.absolute_line_start <= p.absolute <= self.content().len()
                    && p.line_number == newlines_before(
                    self.content(),
                    p.absolute_line_start as int,
                ),
                None => true,
            },
    {
        let t = self.content();
        let len = t.len() as int;
        assert(newlines_before(t, 0) == 0);
        match obj.kind {
            Kind::Char => {
                match obj.offset {
                    Offset::Forward(n, m) => {
                        if self.mark_of(m) is Some {
                            let mp = self.mark_of(m)->Some_0;
                            let target = if mp.absolute + n < len {
                                mp.absolute + n
                            } else {
                                len
                            };
                            lemma_resolved_at_consistent(t, target);
                        }
                    },
                    Offset::Backward(n, m) => {
                        if self.mark_of(m) is Some {
                            let mp = self.mark_of(m)->Some_0;
                            if mp.absolute >= n {
                                let tg = mp.absolute - n;
                                lemma_resolved_at_consistent(
                                    t,
                                    if tg <= len {
                                        tg as int
                                    } else {
                                        len
                                    },
                                );
                            }
                        }
                    },
                    Offset::Absolute(_) => {},
                }
            },
            Kind::Line(anchor) => {
                match obj.offset {
                    Offset::Forward(n, m) => {
                        if self.mark_of(m) is Some {
                            let mp = self.mark_of(m)->Some_0;
                            self.lemma_mark_entry_consistent(m);
                            let p = if mp.absolute <= len {
                                mp.absolute as int
                            } else {
                                len
                            };
                            let col = mp.absolute - mp.absolute_line_start;
                            match anchor {
                                Anchor::End => {
                                    match nth_newline_from(t, p, n as nat) {
                                        Some(i) => {
                                            lemma_nth_newline_from(t, p, n as nat);
                                            lemma_resolved_at_consistent(t, i);
                                        },
                                        None => {
                                            lemma_resolved_at_consistent(t, len);
                                        },
                                    }
                                },
                                Anchor::Same => {
                                    if n == 0 {
                                        lemma_line_start_at(t, p);
                                        let s = line_start_at(t, p);
                                        match nth_newline_from(t, p, 0) {
                                            Some(i) => {
                                                lemma_nth_newline_from(t, p, 0);
                                                lemma_resolved_at_consistent(
                                                    t,
                                                    if s + col <= i {
                                                        s + col
                                                    } else {
                                                        i
                                                    },
                                                );
                                            },
                                            None => {
                                                lemma_resolved_at_consistent(
                                                    t,
                                                    if s + col <= len {
                                                        s + col
                                                    } else {
                                                        len
                                                    },
                                                );
                                            },
                                        }
                                    } else {
                                        match nth_newline_from(t, p, (n - 1) as nat) {
                                            Some(i) => {
                                                lemma_nth_newline_from(t, p, (n - 1) as nat);
                                                let s = i + 1;
                                                let e = match nth_newline_from(t, p, n as nat) {
                                                    Some(j) => j,
                                                    None => len,
                                                };
                                                if nth_newline_from(t, p, n as nat) is Some {
                                                    lemma_nth_newline_from(t, p, n as nat);
                                                }
                                                lemma_resolved_at_consistent(
                                                    t,
                                                    if s + col <= e {
                                                        s + col
                                                    } else {
                                                        e
                                                    },
                                                );
                                            },
                                            None => {
                                                lemma_resolved_at_consistent(t, len);
                                            },
                                        }
                                    }
                                },
                                _ => {},
                            }
                        }
                    },
                    Offset::Backward(n, m) => {
                        if self.mark_of(m) is Some {
                            let mp = self.mark_of(m)->Some_0;
                            self.lemma_mark_entry_consistent(m);
                            let p = if mp.absolute <= len {
                                mp.absolute as int
                            } else {
                                len
                            };
                            let col = mp.absolute - mp.absolute_line_start;
                            match anchor {
                                Anchor::Start => {
                                    match nth_newline_back(t, p, n as nat) {
                                        Some(i) => {
                                            lemma_nth_newline_back(t, p, n as nat);
                                            lemma_resolved_at_consistent(t, i + 1);
                                        },
                                        None => {},
                                    }
                                },
                                Anchor::Same => {
                                    if n > 0 {
                                        match nth_newline_back(t, p, (n - 1) as nat) {
                                            Some(j) => {
                                                lemma_nth_newline_back(t, p, (n - 1) as nat);
                                                let s = match nth_newline_back(t, p, n as nat) {
                                                    Some(i) => i + 1,
                                                    None => 0,
                                                };
                                                if nth_newline_back(t, p, n as nat) is Some {
                                                    lemma_nth_newline_back(t, p, n as nat);
                                                }
                                                lemma_resolved_at_consistent(
                                                    t,
                                                    if s + col <= j {
                                                        s + col
                                                    } else {
                                                        j
                                                    },
                                                );
                                            },
                                            None => {},
                                        }
                                    }
                                },
                                _ => {},
                            }
                        }
                    },
                    Offset::Absolute(ln) => {
                        match anchor {
                            Anchor::Start => {
                                if nth_newline_from(t, 0, ln as nat) is Some {
                                    let i = nth_newline_from(t, 0, ln as nat)->Some_0;
                                    lemma_nth_newline_from(t, 0, ln as nat);
                                    lemma_resolved_at_consistent(t, i + 1);
                                }
                            },
                            Anchor::End => {
                                if nth_newline_from(t, 0, ln as nat) is Some {
                                    let i = nth_newline_from(t, 0, ln as nat)->Some_0;
                                    lemma_nth_newline_from(t, 0, ln as nat);
                                    lemma_resolved_at_consistent(t, i);
                                }
                            },
                            _ => {},
                        }
                    },
                }
            },
            Kind::Word(anchor) => {
                let edger = WordEdgeMatch::Whitespace;
                match obj.offset {
                    Offset::Forward(n, m) => {
                        if self.mark_of(m) is Some {
                            let mp = self.mark_of(m)->Some_0;
                            let p = if mp.absolute <= len {
                                mp.absolute as int
                            } else {
                                len
                            };
                            match anchor {
                                Anchor::Start => {
                                    match get_words_spec(t, p, n as nat, edger) {
                                        Some(i) => {
                                            lemma_nth_word_edge_in(
                                                edger,
                                                t,
                                                p + 1,
                                                len - 1,
                                                (n - 1) as nat,
                                            );
                                            lemma_resolved_at_consistent(t, i);
                                        },
                                        None => {
                                            lemma_resolved_at_consistent(t, len);
                                        },
                                    }
                                },
                                _ => {
                                    lemma_resolved_at_consistent(t, len);
                                },
                            }
                        }
                    },
                    Offset::Backward(n, m) => {
                        if self.mark_of(m) is Some {
                            let mp = self.mark_of(m)->Some_0;
                            let p = if mp.absolute <= len {
                                mp.absolute as int
                            } else {
                                len
                            };
                            match anchor {
                                Anchor::Start => {
                                    match get_words_rev_spec(t, p, n as nat, edger) {
                                        Some(i) => {
                                            lemma_nth_word_edge_back(edger, t, p, (n - 1) as nat);
                                            lemma_resolved_at_consistent(t, i);
                                        },
                                        None => {},
                                    }
                                },
                                _ => {
                                    lemma_resolved_at_consistent(t, len);
                                },
                            }
                        }
                    },
                    Offset::Absolute(w) => {
                        match anchor {
                            Anchor::Start => {
                                if w > 0 && get_words_spec(t, 0, (w - 1) as nat, edger) is Some {
                                    let i = get_words_spec(t, 0, (w - 1) as nat, edger)->Some_0;
                                    lemma_nth_word_edge_in(edger, t, 1, len - 1, (w - 2) as nat);
                                    lemma_resolved_at_consistent(t, i);
                                }
                            },
                            _ => {},
                        }
                    },
                }
            },
        }
    }

    /// Clamping: a forward line or word request counted from a set mark
    /// never resolves past the buffer's logical length; one whose count
    /// exceeds the boundaries available lands exactly on the last valid
    /// offset, and a backward one on the buffer start.
    pub proof fn lemma_object_index_clamped(self, obj: TextObject)
        requires
            self.wf(),
            obj.kind is Line || obj.kind is Word,
            obj.offset is Forward || obj.offset is Backward,
        ensures
            ({
                let t = self.content();
                let len = t.len() as int;
                let r = self.object_index_spec(obj);
                let edger = WordEdgeMatch::Whitespace;
                match (obj.kind, obj.offset) {
                    (Kind::Line(anchor), Offset::Forward(n, m)) => match self.mark_of(m) {
                        Some(mp) => {
                            let p = if mp.absolute <= len {
                                mp.absolute as int
                            } else {
                                len
                            };
                            &&& (r is Some ==> r->Some_0.absolute <= len)
                            &&& (anchor is End && nth_newline_from(t, p, n as nat) is None ==> r
                                == Some(resolved_at(t, len)))
                            &&& (anchor is Same && n > 0 && nth_newline_from(
                                t,
                                p,
                                (n - 1) as nat,
                            ) is None ==> r == Some(resolved_at(t, len)))
                        },
                        None => r is None,
                    },
                    (Kind::Line(anchor), Offset::Backward(n, m)) => match self.mark_of(m) {
                        Some(mp) => {
                            let p = if mp.absolute <= len {
                                mp.absolute as int
                            } else {
                                len
                            };
                            &&& (r is Some ==> r->Some_0.absolute <= len)
                            &&& (anchor is Start && nth_newline_back(t, p, n as nat) is None ==> r
                                == Some(MarkPosition::start_spec()))
                            &&& (anchor is Same && n > 0 && nth_newline_back(
                                t,
                                p,
                                (n - 1) as nat,
                            ) is None ==> r == Some(MarkPosition::start_spec()))
                        },
                        None => r is None,
                    },
                    (Kind::Word(anchor), Offset::Forward(n, m)) => match self.mark_of(m) {
                        Some(mp) => {
                            let p = if mp.absolute <= len {
                                mp.absolute as int
                            } else {
                                len
                            };
                            &&& (r is Some ==> r->Some_0.absolute <= len)
                            &&& (anchor is Start && get_words_spec(t, p, n as nat, edger) is None
                                ==> r == Some(resolved_at(t, len)))
                        },
                        None => r is None,
                    },
                    (Kind::Word(anchor), Offset::Backward(n, m)) => match self.mark_of(m) {
                        Some(mp) => {
                            let p = if mp.absolute <= len {
                                mp.absolute as int
                            } else {
                                len
                            };
                            &&& (r is Some ==> r->Some_0.absolute <= len)
                            &&& (anchor is Start && get_words_rev_spec(t, p, n as nat, edger)
                                is None ==> r == Some(MarkPosition::start_spec()))
                        },
                        None => r is None,
                    },
                    _ => true,
                }
            }),
    {
        self.lemma_object_index_consistent(obj);
    }
}

/// Performs a transaction on the passed in text: replay its changes, in
/// recorded order.
fn commit(transaction: &LogEntry, text: &mut GapBuffer<u8>)
    requires
        changes_applicable(gb_contents(*old(text)), transaction.changes@),
        gb_contents(*old(text)).len() <= MAX_TEXT,
    ensures
        gb_contents(*final(text)) == apply_changes(gb_contents(*old(text)), transaction.changes@),
        gb_contents(*final(text)).len() <= MAX_TEXT,
{
    let ghost t = gb_contents(*old(text));
    let ghost all = transaction.changes@;
    let n = transaction.changes.len();
    let mut k: usize = 0;
    proof {
        assert(all.skip(0) =~= all);
        assert(all.take(0) =~= Seq::<Change>::empty());
    }
    while k < n
        invariant
            n == all.len(),
            k <= n,
            all == transaction.changes@,
            t == gb_contents(*old(text)),
            t.len() <= MAX_TEXT,
            gb_contents(*text).len() <= MAX_TEXT,
            changes_applicable(gb_contents(*text), all.skip(k as int)),
            apply_changes(t, all.take(k as int)) == gb_contents(*text),
            apply_changes(t, all) == apply_changes(gb_contents(*text), all.skip(k as int)),
        decreases n - k,
    {
        let ghost pre = gb_contents(*text);
        let c = transaction.changes[k];
        proof {
            assert(all.skip(k as int)[0] == all[k as int]);
            assert(change_applicable(pre, c));
        }
        match c {
            Change::Insert(i, b) => {
                gb_insert(text, i, b);
            },
            Change::Remove(i, _) => {
                let _ = gb_remove(text, i);
            },
        }
        proof {
            assert(gb_contents(*text) == apply_change(pre, c));
            assert(all.skip(k as int).skip(1) =~= all.skip(k + 1));
            assert(all.take(k as int).push(c) =~= all.take(k + 1));
            lemma_apply_push(t, all.take(k as int), c);
        }
        k = k + 1;
    }
    proof {
        assert(all.take(n as int) =~= all);
        assert(all.skip(n as int) =~= Seq::<Change>::empty());
    }
}

/// If some entry bears the mark, lookup succeeds.
proof fn lemma_find_mark_at_exists(entries: Seq<(Mark, MarkPosition)>, m: Mark)
    requires
        exists|k: int| 0 <= k < entries.len() && (#[trigger] entries[k]).0 == m,
    ensures
        find_mark_in(entries, m) is Some,
    decreases entries.len(),
{
    if entries.len() > 0 && entries[0].0 != m {
        let k = choose|k: int| 0 <= k < entries.len() && (#[trigger] entries[k]).0 == m;
        assert(entries.skip(1)[k - 1] == entries[k]);
        lemma_find_mark_at_exists(entries.skip(1), m);
    }
}

} // verus!

