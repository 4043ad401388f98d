//! The storage and viewport core of a terminal line editor.
//!
//! A document lives in a piece table over two append-only buffers; the
//! visible lines are cached in a capacity-bounded segment that scrolls one
//! line at a time; a cursor with sticky-column memory moves over them; and
//! a buffer ties the three together, deciding for every keystroke what
//! changes and what must be repainted. The editor shell on top is a small
//! Normal/Insert state machine over decoded key events.
//!
//! Text is handled as code points throughout: every contract is stated
//! over sequences of characters and the line decomposition defined in
//! [`text`].

pub mod buffer;
pub mod cursor;
pub mod editor;
pub mod piece_table;
pub mod segment;
pub mod text;
