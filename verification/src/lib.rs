//! An in-memory directory tree driven by a line-oriented command shell.
//!
//! The tree lives in a fixed pool of one hundred slots. The shell collects key
//! presses into a line, splits the line into a command word and one argument,
//! and applies the command to the tree. Nothing here prints: every operation
//! hands back the display operations that its caller is to perform.

pub mod arena;
pub mod display;
pub mod error;
pub mod keys;
pub mod limits;
pub mod node;
pub mod shell;
pub mod token;
pub mod tree;

pub use arena::Dirs;
pub use display::{DisplayOp, Notice};
pub use error::ShellError;
pub use keys::handle_keyboard_interrupt;
pub use node::Dir;
pub use shell::{Command, Reply, Shell};
pub use token::{parse_argument, parse_command, tokenize};
