use vstd::prelude::*;

use gapbuffer::GapBuffer;

use crate::storage::{gb_contents, gb_get, gb_len};

verus! {

/// The byte that terminates a line.
pub const NEWLINE: u8 = 10;

/// How many newline bytes lie at indices below `end`.
pub open spec fn newlines_before(text: Seq<u8>, end: int) -> nat
    decreases end,
{
    if end <= 0 || end > text.len() {
        0
    } else {
        newlines_before(text, end - 1) + if text[end - 1] == NEWLINE {
            1nat
        } else {
            0nat
        }
    }
}

/// Whether `pos` begins a line: the buffer start, or the slot just after a
/// newline byte.
pub open spec fn is_line_start(text: Seq<u8>, pos: int) -> bool {
    pos == 0 || (0 < pos <= text.len() && text[pos - 1] == NEWLINE)
}

/// The nearest line start at or before `pos`.
pub open spec fn line_start_at(text: Seq<u8>, pos: int) -> int
    decreases pos,
{
    if pos <= 0 {
        0
    } else if pos <= text.len() && text[pos - 1] == NEWLINE {
        pos
    } else {
        line_start_at(text, pos - 1)
    }
}

/// The index of the (k+1)-th newline at position `from` or later, if that
/// many exist.
pub open spec fn nth_newline_from(text: Seq<u8>, from: int, k: nat) -> Option<int>
    recommends
        0 <= from,
    decreases text.len() - from,
{
    if from < 0 || from >= text.len() {
        None
    } else if text[from] == NEWLINE {
        if k == 0 {
            Some(from)
        } else {
            nth_newline_from(text, from + 1, (k - 1) as nat)
        }
    } else {
        nth_newline_from(text, from + 1, k)
    }
}

/// The index of the (k+1)-th newline strictly before position `from`,
/// counting backward, if that many exist.
pub open spec fn nth_newline_back(text: Seq<u8>, from: int, k: nat) -> Option<int>
    recommends
        from <= text.len(),
    decreases from,
{
    if from <= 0 || from > text.len() {
        None
    } else if text[from - 1] == NEWLINE {
        if k == 0 {
            Some(from - 1)
        } else {
            nth_newline_back(text, from - 1, (k - 1) as nat)
        }
    } else {
        nth_newline_back(text, from - 1, k)
    }
}

/// A line start lies at or before its position, is itself a line start,
/// and no newline lies between the two.
pub proof fn lemma_line_start_at(text: Seq<u8>, pos: int)
    requires
        0 <= pos <= text.len(),
    ensures
        0 <= line_start_at(text, pos) <= pos,
        is_line_start(text, line_start_at(text, pos)),
        forall|j: int| line_start_at(text, pos) <= j < pos ==> text[j] != NEWLINE,
    decreases pos,
{
    if pos <= 0 {
    } else if text[pos - 1] == NEWLINE {
    } else {
        lemma_line_start_at(text, pos - 1);
    }
}

/// Newlines are counted the same at a position and at its line start: the
/// bytes between the two contain no newline.
pub proof fn lemma_newlines_at_line_start(text: Seq<u8>, pos: int)
    requires
        0 <= pos <= text.len(),
    ensures
        newlines_before(text, line_start_at(text, pos)) == newlines_before(text, pos),
    decreases pos,
{
    if pos <= 0 {
    } else if text[pos - 1] == NEWLINE {
    } else {
        lemma_newlines_at_line_start(text, pos - 1);
    }
}

/// There are never more newlines below a position than the position itself.
pub proof fn lemma_newlines_before_le(text: Seq<u8>, end: int)
    requires
        0 <= end <= text.len(),
    ensures
        newlines_before(text, end) <= end,
    decreases end,
{
    if end > 0 {
        lemma_newlines_before_le(text, end - 1);
    }
}

/// A found forward newline lies in range, is a newline, and lies at least
/// `k` slots past the scan origin.
pub proof fn lemma_nth_newline_from(text: Seq<u8>, from: int, k: nat)
    requires
        0 <= from,
    ensures
        match nth_newline_from(text, from, k) {
            Some(i) => from + k <= i < text.len() && text[i] == NEWLINE,
            None => true,
        },
    decreases text.len() - from,
{
    if from < 0 || from >= text.len() {
    } else if text[from] == NEWLINE {
        if k > 0 {
            lemma_nth_newline_from(text, from + 1, (k - 1) as nat);
        }
    } else {
        lemma_nth_newline_from(text, from + 1, k);
    }
}

/// Forward newline indices grow strictly with the count requested.
pub proof fn lemma_nth_newline_from_mono(text: Seq<u8>, from: int, k: nat)
    requires
        0 <= from,
        nth_newline_from(text, from, (k + 1) as nat) is Some,
    ensures
        nth_newline_from(text, from, k) is Some,
        nth_newline_from(text, from, k)->Some_0 < nth_newline_from(text, from, (k + 1) as nat)->Some_0,
    decreases text.len() - from,
{
    if from < 0 || from >= text.len() {
    } else if text[from] == NEWLINE {
        if k > 0 {
            lemma_nth_newline_from_mono(text, from + 1, (k - 1) as nat);
        } else {
            lemma_nth_newline_from(text, from + 1, 0);
        }
    } else {
        lemma_nth_newline_from_mono(text, from + 1, k);
    }
}

/// A found backward newline lies in range, is a newline, and lies at least
/// `k` slots before the scan origin.
pub proof fn lemma_nth_newline_back(text: Seq<u8>, from: int, k: nat)
    requires
        from <= text.len(),
    ensures
        match nth_newline_back(text, from, k) {
            Some(i) => 0 <= i && i + k < from && text[i] == NEWLINE,
            None => true,
        },
    decreases from,
{
    if from <= 0 || from > text.len() {
    } else if text[from - 1] == NEWLINE {
        if k > 0 {
            lemma_nth_newline_back(text, from - 1, (k - 1) as nat);
        }
    } else {
        lemma_nth_newline_back(text, from - 1, k);
    }
}

/// Backward newline indices shrink strictly with the count requested.
pub proof fn lemma_nth_newline_back_mono(text: Seq<u8>, from: int, k: nat)
    requires
        from <= text.len(),
        nth_newline_back(text, from, (k + 1) as nat) is Some,
    ensures
        nth_newline_back(text, from, k) is Some,
        nth_newline_back(text, from, (k + 1) as nat)->Some_0 < nth_newline_back(text, from, k)->Some_0,
    decreases from,
{
    if from <= 0 || from > text.len() {
    } else if text[from - 1] == NEWLINE {
        if k > 0 {
            lemma_nth_newline_back_mono(text, from - 1, (k - 1) as nat);
        } else {
            lemma_nth_newline_back(text, from - 1, 0);
        }
    } else {
        lemma_nth_newline_back_mono(text, from - 1, k);
    }
}

/// Find the nearest line start at or before `pos`.
pub fn find_line_start(text: &GapBuffer<u8>, pos: usize) -> (r: usize)
    requires
        pos <= gb_contents(*text).len(),
    ensures
        r == line_start_at(gb_contents(*text), pos as int),
{
    let mut ls: usize = pos;
    while ls > 0 && gb_get(text, ls - 1) != NEWLINE
        invariant
            ls <= pos <= gb_contents(*text).len(),
            line_start_at(gb_contents(*text), pos as int) == line_start_at(
                gb_contents(*text),
                ls as int,
            ),
        decreases ls,
    {
        ls = ls - 1;
    }
    ls
}

/// Count the newlines at indices below `end`.
pub fn count_newlines_before(text: &GapBuffer<u8>, end: usize) -> (r: usize)
    requires
        end <= gb_contents(*text).len(),
    ensures
        r == newlines_before(gb_contents(*text), end as int),
{
    let mut n: usize = 0;
    let mut j: usize = 0;
    while j < end
        invariant
            j <= end <= gb_contents(*text).len(),
            n <= j,
            n == newlines_before(gb_contents(*text), j as int),
        decreases end - j,
    {
        if gb_get(text, j) == NEWLINE {
            n = n + 1;
        }
        j = j + 1;
    }
    n
}

/// Find the (k+1)-th newline at position `from` or later.
pub fn find_nth_newline_from(text: &GapBuffer<u8>, from: usize, k: usize) -> (r: Option<usize>)
    ensures
        ({
            let s = nth_newline_from(gb_contents(*text), from as int, k as nat);
            match r {
                Some(i) => s == Some(i as int) && i < gb_contents(*text).len(),
                None => s is None,
            }
        }),
{
    let len = gb_len(text);
    let mut i: usize = from;
    let mut rem: usize = k;
    while i < len
        invariant
            len == gb_contents(*text).len(),
            nth_newline_from(gb_contents(*text), from as int, k as nat) == nth_newline_from(
                gb_contents(*text),
                i as int,
                rem as nat,
            ),
        decreases len - i,
    {
        if gb_get(text, i) == NEWLINE {
            if rem == 0 {
                return Some(i);
            }
            rem = rem - 1;
        }
        i = i + 1;
    }
    None
}

/// Find the (k+1)-th newline strictly before `from`, scanning backward.
pub fn find_nth_newline_back(text: &GapBuffer<u8>, from: usize, k: usize) -> (r: Option<usize>)
    requires
        from <= gb_contents(*text).len(),
    ensures
        ({
            let s = nth_newline_back(gb_contents(*text), from as int, k as nat);
            match r {
                Some(i) => s == Some(i as int) && i < from,
                None => s is None,
            }
        }),
{
    let mut i: usize = from;
    let mut rem: usize = k;
    while i > 0
        invariant
            i <= from <= gb_contents(*text).len(),
            nth_newline_back(gb_contents(*text), from as int, k as nat) == nth_newline_back(
                gb_contents(*text),
                i as int,
                rem as nat,
            ),
        decreases i,
    {
        if gb_get(text, i - 1) == NEWLINE {
            if rem == 0 {
                return Some(i - 1);
            }
            rem = rem - 1;
        }
        i = i - 1;
    }
    None
}

} // verus!
