use vstd::prelude::*;

verus! {

/// A stable identity for a position in the buffer. A mark names a slot in
/// the mark table; resolving it never invalidates the identity, only the
/// cached position stored under it.
#[derive(Copy, Clone, PartialEq, Eq, Structural, Hash, Debug)]
pub enum Mark {
    /// For keeping track of cursors.
    Cursor(usize),
    /// For use in determining some display of characters.
    DisplayMark(usize),
}

} // verus!
