//! Small file utilities: walking the lines of a byte buffer forward or
//! backward, the decisions of a full read into a fixed buffer, and the
//! length check in front of a read-only mapping.

pub mod lines;
pub mod map;
pub mod read;
pub mod walker;

pub use map::mapped_length;
pub use read::{read_next, read_start, ReadAction, ReadEvent};
pub use walker::{buffer_for_each_line, buffer_for_each_line_reverse, LineWalker, ReverseLineWalker};
