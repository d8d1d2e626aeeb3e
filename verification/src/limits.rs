//! The fixed sizes of the tree and of the input line.

use vstd::prelude::*;

verus! {

/// How many children one directory can hold.
pub const MAX_CHILDREN: usize = 10;

/// The width of a directory name, in bytes.
pub const MAX_DIR_NAME: usize = 10;

/// How many slots the pool of directories has.
pub const MAX_DIRS: usize = 100;

/// The width of the input line, in bytes.
pub const MAX_LINE: usize = 80;

/// The byte that pads names and words, and that separates words.
pub const SPACE: u8 = 32;

/// The byte that submits the line.
pub const NEWLINE: u8 = 10;

/// The byte that erases the last byte of the line.
pub const BACKSPACE: u8 = 8;

/// The byte that, in front of an argument, names the parent directory.
pub const DOT: u8 = 46;

/// The byte printed in front of every directory name.
pub const SLASH: u8 = 47;

} // verus!
