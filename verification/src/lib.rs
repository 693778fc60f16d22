//! Core of a modal text editor: a mutable byte buffer addressed through
//! symbolic marks, a navigation algebra over characters, lines and words,
//! and a transactional edit log providing undo and redo.

pub mod buffer;
pub mod keyboard;
pub mod log;
pub mod mark;
pub mod modes;
pub mod position;
pub mod storage;
pub mod textobject;
pub mod utils;
