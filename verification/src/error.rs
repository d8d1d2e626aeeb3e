//! The ways in which a key press or a command can fail.

use vstd::prelude::*;

verus! {

/// Why an operation did nothing. No failure is fatal: the shell stays valid
/// and goes on collecting keys.
#[derive(Clone, Copy, Debug, PartialEq, Eq, Structural)]
pub enum ShellError {
    /// The command needs an argument and the line holds none.
    EmptyArgument,
    /// A sibling already bears the name.
    DuplicateName,
    /// No such directory, or no such command.
    NotFound,
    /// The pool has no slot left, or the parent has no room for another child.
    ArenaFull,
    /// Backspace on an empty line.
    BufferUnderflow,
    /// A key on a full line.
    BufferOverflow,
}

} // verus!
