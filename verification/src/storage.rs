use vstd::prelude::*;

use gapbuffer::GapBuffer;

verus! {

/// Upper bound kept on the stored text length. Staying well below the
/// address-space limit means the backing collection can always grow
/// without reaching its capacity limit.
pub const MAX_TEXT: usize = usize::MAX / 8;

#[verifier::external_type_specification]
#[verifier::external_body]
#[verifier::reject_recursive_types(T)]
pub struct ExGapBuffer<T>(GapBuffer<T>);

/// The bytes held by a gap buffer, in storage order.
pub uninterp spec fn gb_contents(g: GapBuffer<u8>) -> Seq<u8>;

/// Relies on GapBuffer::new: constructs an empty buffer.
#[verifier::external_body]
pub fn gb_new() -> (r: GapBuffer<u8>)
    ensures
        gb_contents(r) == Seq::<u8>::empty(),
{
    GapBuffer::new()
}

/// Relies on GapBuffer::len: the number of stored elements.
#[verifier::external_body]
pub fn gb_len(g: &GapBuffer<u8>) -> (r: usize)
    ensures
        r == gb_contents(*g).len(),
{
    g.len()
}

/// Relies on GapBuffer's Index impl: the element at an in-range index.
#[verifier::external_body]
pub fn gb_get(g: &GapBuffer<u8>, i: usize) -> (r: u8)
    requires
        i < gb_contents(*g).len(),
    ensures
        r == gb_contents(*g)[i as int],
{
    g[i]
}

/// Relies on GapBuffer::insert: places the element at the index and shifts
/// everything at or after it one slot later. The index must be in range
/// (the call panics past the end), and the length is kept well below the
/// backing deque's capacity limit.
#[verifier::external_body]
pub fn gb_insert(g: &mut GapBuffer<u8>, i: usize, b: u8)
    requires
        i <= gb_contents(*old(g)).len(),
        gb_contents(*old(g)).len() < MAX_TEXT,
    ensures
        gb_contents(*final(g)) == gb_contents(*old(g)).insert(i as int, b),
{
    g.insert(i, b);
}

/// Relies on GapBuffer::remove: takes out and returns the element at the
/// index, or returns nothing and leaves the buffer unchanged when the
/// index is out of range.
#[verifier::external_body]
pub fn gb_remove(g: &mut GapBuffer<u8>, i: usize) -> (r: Option<u8>)
    ensures
        i < gb_contents(*old(g)).len() ==> r == Some(gb_contents(*old(g))[i as int])
            && gb_contents(*final(g)) == gb_contents(*old(g)).remove(i as int),
        i >= gb_contents(*old(g)).len() ==> r is None
            && gb_contents(*final(g)) == gb_contents(*old(g)),
{
    g.remove(i)
}

} // verus!
