// The core of a terminal emulator: a parser for the escape sequences that a
// shell writes, a grid of character cells with the scrollback above it, a
// tracker of text styles over stable character positions, and the state
// machine that joins them and keeps the cursor.

pub mod ansi;
pub mod buffer;
pub mod buffer_laws;
pub mod cursor;
pub mod emulator;
pub mod format_tracker;
pub mod input;
pub mod line;
pub mod snapshot;
pub mod visible;
