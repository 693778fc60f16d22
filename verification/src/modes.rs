use vstd::prelude::*;

verus! {

/// The editing modes the surrounding editor can be in, in the tradition of
/// modal editors.
#[derive(Copy, Clone, Debug)]
pub enum ModeType {
    Normal,
    Insert,
}

} // verus!
