//! Characters that the logging and formatting code builds text from.

use vstd::prelude::*;

verus! {

/// The character that stands for "no indicator" in a log line.
pub const WHITESPACE: char = '\u{0}';

/// A single space.
pub const SPACE: char = ' ';

/// A horizontal tab; one step of a log margin.
pub const TAB: char = '\t';

/// The line terminator that loggers append to each entry.
pub const NEWLINE: char = '\n';

} // verus!
