//! The shell: the input line, the current directory, and the commands.

use vstd::prelude::*;
use vstd::string::StringSliceAdditionalSpecFns;
use crate::arena::{initial_tree, lines_view, Dirs};
use crate::display::{append_bytes, append_tree, print_ops, text, tree_text, DisplayOp, Notice};
use crate::error::ShellError;
use crate::limits::{
    BACKSPACE, DOT, MAX_DIR_NAME, MAX_LINE, NEWLINE, SLASH, SPACE,
};
use crate::node::Dir;
use crate::token::{argument_word, command_word, parse_argument, parse_command, typed_line};
use crate::tree::{lemma_found_child, Tree};

verus! {

/// The commands that the shell knows, and what stands for every other word.
#[derive(Clone, Copy, Debug, PartialEq, Eq, Structural)]
pub enum Command {
    CurDir,
    MakeDir,
    ChangeDir,
    RemoveDir,
    DirTree,
    Clear,
    Unknown,
}

impl Command {
    /// The keyword, as the bytes that are typed.
    pub open spec fn spec_keyword(self) -> Seq<u8> {
        match self {
            Command::CurDir => "cur_dir".spec_bytes(),
            Command::MakeDir => "make_dir".spec_bytes(),
            Command::ChangeDir => "change_dir".spec_bytes(),
            Command::RemoveDir => "remove_dir".spec_bytes(),
            Command::DirTree => "dir_tree".spec_bytes(),
            Command::Clear => "clear".spec_bytes(),
            Command::Unknown => Seq::empty(),
        }
    }

    /// The keyword; the empty word for `Unknown`.
    pub fn keyword(self) -> (word: &'static str)
        ensures
            word.spec_bytes() == self.spec_keyword(),
    {
        match self {
            Command::CurDir => "cur_dir",
            Command::MakeDir => "make_dir",
            Command::ChangeDir => "change_dir",
            Command::RemoveDir => "remove_dir",
            Command::DirTree => "dir_tree",
            Command::Clear => "clear",
            Command::Unknown => {
                proof {
                    reveal_strlit("");
                    assert("".spec_bytes() =~= Seq::<u8>::empty()) by {
                        vstd::string::is_ascii_spec_bytes("");
                    }
                }
                ""
            },
        }
    }
}

/// Whether the command word is the keyword: every byte of the keyword
/// stands at the front of the word, and behind it comes a space or the end
/// of the word.
pub open spec fn keyword_matches(keyword: Seq<u8>, command: Seq<u8>) -> bool {
    &&& keyword.len() <= command.len()
    &&& forall|i: int| 0 <= i < keyword.len() ==> keyword[i] == command[i]
    &&& keyword.len() == command.len() || command[keyword.len() as int] == SPACE
}

/// The command that the word names.
pub open spec fn recognize(command: Seq<u8>) -> Command {
    if keyword_matches(Command::CurDir.spec_keyword(), command) {
        Command::CurDir
    } else if keyword_matches(Command::MakeDir.spec_keyword(), command) {
        Command::MakeDir
    } else if keyword_matches(Command::ChangeDir.spec_keyword(), command) {
        Command::ChangeDir
    } else if keyword_matches(Command::RemoveDir.spec_keyword(), command) {
        Command::RemoveDir
    } else if keyword_matches(Command::DirTree.spec_keyword(), command) {
        Command::DirTree
    } else if keyword_matches(Command::Clear.spec_keyword(), command) {
        Command::Clear
    } else {
        Command::Unknown
    }
}

/// What is printed behind a command that takes a name: on success the
/// given words, the name and a line feed; on failure the complaint, or
/// nothing where the failure has none.
pub open spec fn report(done: Notice, name: Seq<u8>, result: Result<int, ShellError>) -> Seq<u8> {
    match result {
        Ok(_) => done.spec_bytes() + name + seq![NEWLINE],
        Err(ShellError::EmptyArgument) => Notice::EmptyArgument.spec_bytes() + seq![NEWLINE],
        Err(ShellError::DuplicateName) => Notice::AlreadyExists.spec_bytes() + seq![NEWLINE],
        Err(ShellError::NotFound) => Notice::NoSuchDirectory.spec_bytes() + seq![NEWLINE],
        Err(_) => Seq::empty(),
    }
}

/// Success or failure, without what was found or made.
pub open spec fn status_of(result: Result<int, ShellError>) -> Result<(), ShellError> {
    match result {
        Ok(_) => Ok(()),
        Err(e) => Err(e),
    }
}

/// Whether what the shell returned is what the model says.
pub open spec fn agrees(got: Result<usize, ShellError>, model: Result<int, ShellError>) -> bool {
    match (got, model) {
        (Ok(a), Ok(b)) => a as int == b,
        (Err(a), Err(b)) => a == b,
        _ => false,
    }
}

/// The shell as mathematics: the bytes typed so far, the tree, and the slot
/// of the current directory.
pub struct ShellView {
    pub line: Seq<u8>,
    pub tree: Tree,
    pub cwd: int,
}

/// What a key press or a command comes to: the shell afterwards, whether it
/// succeeded, and what the display is asked to do.
pub struct Outcome {
    pub next: ShellView,
    pub status: Result<(), ShellError>,
    pub display: Seq<DisplayOp>,
}

impl ShellView {
    pub open spec fn wf(self) -> bool {
        &&& self.line.len() <= MAX_LINE
        &&& self.tree.wf()
        &&& self.tree.has(self.cwd)
    }

    /// What `make_dir` returns: the slot of the new directory, or why none
    /// was made. A name that starts with a space is no name.
    pub open spec fn make_dir(self, argument: Seq<u8>) -> Result<int, ShellError> {
        if argument[0] == SPACE {
            Err(ShellError::EmptyArgument)
        } else {
            self.tree.create_outcome(self.cwd, argument)
        }
    }

    pub open spec fn after_make_dir(self, argument: Seq<u8>) -> ShellView {
        if self.make_dir(argument) is Ok {
            ShellView { tree: self.tree.with_child(self.cwd, argument), ..self }
        } else {
            self
        }
    }

    /// What `change_dir` returns: the slot of the directory that becomes
    /// current, or why none does. A name that starts with a dot names the
    /// parent, and the parent of the root is the root.
    pub open spec fn change_dir(self, name: Seq<u8>) -> Result<int, ShellError> {
        if name[0] == SPACE {
            Err(ShellError::EmptyArgument)
        } else if name[0] == DOT {
            Ok(self.tree.parent(self.cwd))
        } else {
            match self.tree.find_child(self.cwd, name) {
                Some(c) => Ok(c),
                None => Err(ShellError::NotFound),
            }
        }
    }

    pub open spec fn after_change_dir(self, name: Seq<u8>) -> ShellView {
        match self.change_dir(name) {
            Ok(c) => ShellView { cwd: c, ..self },
            Err(_) => self,
        }
    }

    /// What `remove_dir` returns: the slot of the child that was removed
    /// with all below it, or why none was.
    pub open spec fn remove_dir(self, name: Seq<u8>) -> Result<int, ShellError> {
        if name[0] == SPACE {
            Err(ShellError::EmptyArgument)
        } else {
            match self.tree.find_child(self.cwd, name) {
                Some(c) => Ok(c),
                None => Err(ShellError::NotFound),
            }
        }
    }

    pub open spec fn after_remove_dir(self, name: Seq<u8>) -> ShellView {
        match self.remove_dir(name) {
            Ok(c) => ShellView { tree: self.tree.without_subtree(c), ..self },
            Err(_) => self,
        }
    }

    /// What a command does. Every command first moves the display to a new
    /// line.
    pub open spec fn run(self, command: Seq<u8>, argument: Seq<u8>) -> Outcome {
        match recognize(command) {
            Command::CurDir => Outcome {
                next: self,
                status: Ok(()),
                display: text(
                    seq![NEWLINE] + (seq![SLASH] + self.tree.name(self.cwd) + seq![NEWLINE]),
                ),
            },
            Command::MakeDir => Outcome {
                next: self.after_make_dir(argument),
                status: status_of(self.make_dir(argument)),
                display: text(
                    seq![NEWLINE] + report(Notice::Created, argument, self.make_dir(argument)),
                ),
            },
            Command::ChangeDir => Outcome {
                next: self.after_change_dir(argument),
                status: status_of(self.change_dir(argument)),
                display: text(
                    seq![NEWLINE] + (if argument[0] == DOT {
                        Seq::empty()
                    } else {
                        report(Notice::Moved, argument, self.change_dir(argument))
                    }),
                ),
            },
            Command::RemoveDir => Outcome {
                next: self.after_remove_dir(argument),
                status: status_of(self.remove_dir(argument)),
                display: text(
                    seq![NEWLINE] + report(Notice::Removed, argument, self.remove_dir(argument)),
                ),
            },
            Command::DirTree => Outcome {
                next: self,
                status: Ok(()),
                display: text(seq![NEWLINE] + tree_text(self.tree.listing(self.cwd))),
            },
            Command::Clear => Outcome {
                next: self,
                status: Ok(()),
                display: text(seq![NEWLINE] + Seq::empty()).push(DisplayOp::Clear),
            },
            Command::Unknown => Outcome {
                next: self,
                status: Err(ShellError::NotFound),
                display: text(
                    seq![NEWLINE] + (Notice::NoSuchCommand.spec_bytes() + seq![NEWLINE]),
                ),
            },
        }
    }

    /// What a key press does. A line feed runs the line and empties it. A
    /// backspace drops the last byte of the line, and fails on an empty
    /// line. Every other byte is put behind the line and echoed, and is
    /// refused when the line is full.
    pub open spec fn press(self, key: u8) -> Outcome {
        if key == NEWLINE {
            let ran = self.run(command_word(self.line), argument_word(self.line));
            Outcome { next: ShellView { line: Seq::empty(), ..ran.next }, ..ran }
        } else if key == BACKSPACE {
            if self.line.len() == 0 {
                Outcome {
                    next: self,
                    status: Err(ShellError::BufferUnderflow),
                    display: Seq::empty(),
                }
            } else {
                Outcome {
                    next: ShellView { line: self.line.drop_last(), ..self },
                    status: Ok(()),
                    display: seq![DisplayOp::EraseLast],
                }
            }
        } else {
            if self.line.len() >= MAX_LINE {
                Outcome {
                    next: self,
                    status: Err(ShellError::BufferOverflow),
                    display: Seq::empty(),
                }
            } else {
                Outcome {
                    next: ShellView { line: self.line.push(key), ..self },
                    status: Ok(()),
                    display: seq![DisplayOp::Put(key)],
                }
            }
        }
    }
}

/// What a key press or a command hands back: whether it succeeded, and what
/// the display is to do, in order.
#[derive(Debug, PartialEq, Eq)]
pub struct Reply {
    pub status: Result<(), ShellError>,
    pub display: Vec<DisplayOp>,
}

/// The shell. It owns the input line and the pool of directories, and keeps
/// a copy of the current directory that is never out of date.
pub struct Shell {
    buf: [u8; MAX_LINE],
    buf_len: usize,
    dirs: Dirs,
    current_dir: Dir,
}

impl View for Shell {
    type V = ShellView;

    closed spec fn view(&self) -> ShellView {
        ShellView {
            line: typed_line(self.buf@, self.buf_len as int),
            tree: self.dirs@,
            cwd: self.current_dir.index as int,
        }
    }
}

impl Shell {
    /// The shell is well formed: the line fits its buffer, the pool is well
    /// formed, and the copy of the current directory is what the pool
    /// stores in its slot.
    pub closed spec fn wf(&self) -> bool {
        &&& self.buf_len <= MAX_LINE
        &&& self.dirs.wf()
        &&& self.dirs@.has(self.current_dir.index as int)
        &&& self.current_dir@ == self.dirs@.nodes[self.current_dir.index as int]
        &&& self.current_dir.compact()
    }

    /// The model of a well-formed shell is well formed.
    pub proof fn lemma_view_wf(&self)
        requires
            self.wf(),
        ensures
            self@.wf(),
    {
        self.dirs.lemma_tree_wf();
    }

    /// A shell with an empty line, in the root of a tree that holds nothing else.
    pub fn new() -> (shell: Shell)
        ensures
            shell.wf(),
            shell@ == (ShellView { line: Seq::empty(), tree: initial_tree(), cwd: 0 }),
    {
        let dirs = Dirs::new();
        proof {
            dirs.lemma_tree_wf();
        }
        let current_dir = match dirs.get(0) {
            Some(d) => d,
            None => Dir::blank(),
        };
        let shell = Shell { buf: [0; MAX_LINE], buf_len: 0, dirs, current_dir };
        proof {
            assert(shell@.line =~= Seq::<u8>::empty());
        }
        shell
    }

    /// The bytes typed so far.
    pub fn line(&self) -> (typed: Vec<u8>)
        requires
            self.wf(),
        ensures
            typed@ == self@.line,
    {
        let mut typed: Vec<u8> = Vec::new();
        let mut i: usize = 0;
        while i < self.buf_len
            invariant
                i <= self.buf_len <= MAX_LINE,
                typed@ == self.buf@.take(i as int),
            decreases self.buf_len - i,
        {
            typed.push(self.buf[i]);
            proof {
                assert(self.buf@.take(i + 1) =~= self.buf@.take(i as int).push(self.buf@[i as int]));
            }
            i += 1;
        }
        typed
    }

    /// The pool of directories.
    pub fn dirs(&self) -> (pool: &Dirs)
        requires
            self.wf(),
        ensures
            pool.wf(),
            pool@ == self@.tree,
    {
        &self.dirs
    }

    /// The current directory.
    pub fn current_dir(&self) -> (dir: Dir)
        requires
            self.wf(),
        ensures
            dir.index == self@.cwd,
            dir@ == self@.tree.nodes[self@.cwd],
            dir.compact(),
    {
        self.current_dir
    }

    /// The name of the current directory, as it is stored.
    pub fn cur_dir(&self) -> (name: [u8; MAX_DIR_NAME])
        requires
            self.wf(),
        ensures
            name@ == self@.tree.name(self@.cwd),
    {
        self.current_dir.name
    }

    /// Whether the command word is the keyword.
    pub fn compare_commands(variant: &str, command: [u8; MAX_LINE]) -> (is_correct: bool)
        ensures
            is_correct == keyword_matches(variant.spec_bytes(), command@),
    {
        let keyword = variant.as_bytes();
        if keyword.len() > MAX_LINE {
            return false;
        }
        let mut i: usize = 0;
        while i < keyword.len()
            invariant
                i <= keyword.len() <= MAX_LINE,
                keyword@ == variant.spec_bytes(),
                forall|j: int| 0 <= j < i ==> keyword@[j] == command@[j],
            decreases keyword.len() - i,
        {
            if keyword[i] != command[i] {
                return false;
            }
            i += 1;
        }
        i == MAX_LINE || command[i] == SPACE
    }

    /// The command that the word names.
    pub fn which_command(command: [u8; MAX_LINE]) -> (named: Command)
        ensures
            named == recognize(command@),
    {
        if Self::compare_commands(Command::CurDir.keyword(), command) {
            Command::CurDir
        } else if Self::compare_commands(Command::MakeDir.keyword(), command) {
            Command::MakeDir
        } else if Self::compare_commands(Command::ChangeDir.keyword(), command) {
            Command::ChangeDir
        } else if Self::compare_commands(Command::RemoveDir.keyword(), command) {
            Command::RemoveDir
        } else if Self::compare_commands(Command::DirTree.keyword(), command) {
            Command::DirTree
        } else if Self::compare_commands(Command::Clear.keyword(), command) {
            Command::Clear
        } else {
            Command::Unknown
        }
    }

    /// The child of the current directory that bears the name.
    pub fn find_dir(&self, name: [u8; MAX_DIR_NAME]) -> (found: Option<usize>)
        requires
            self.wf(),
        ensures
            match found {
                Some(c) => self@.tree.find_child(self@.cwd, name@) == Some(c as int),
                None => self@.tree.find_child(self@.cwd, name@) is None,
            },
    {
        self.dirs.find_child(self.current_dir.index, name)
    }

    /// Brings the copy of the current directory up to date with the pool.
    fn refresh(&mut self, slot: usize)
        requires
            old(self).buf_len <= MAX_LINE,
            old(self).dirs.wf(),
            old(self).dirs@.has(slot as int),
        ensures
            final(self).wf(),
            final(self)@ == (ShellView { cwd: slot as int, ..old(self)@ }),
    {
        proof {
            self.dirs.lemma_tree_wf();
            assert(self.dirs@.node_ok(slot as int));
        }
        match self.dirs.get(slot) {
            Some(d) => {
                self.current_dir = d;
            },
            None => {},
        }
    }

    /// Makes a directory of the given name in the current directory.
    pub fn make_dir(&mut self, argument: [u8; MAX_DIR_NAME]) -> (made: Result<usize, ShellError>)
        requires
            old(self).wf(),
        ensures
            final(self).wf(),
            agrees(made, old(self)@.make_dir(argument@)),
            final(self)@ == old(self)@.after_make_dir(argument@),
    {
        if argument[0] == SPACE {
            return Err(ShellError::EmptyArgument);
        }
        let here = self.current_dir.index;
        proof {
            self.dirs.lemma_tree_wf();
        }
        let made = self.dirs.create_child(here, argument);
        if made.is_ok() {
            self.refresh(here);
        }
        made
    }

    /// Makes the named child, or for a name that starts with a dot the
    /// parent, the current directory.
    pub fn change_dir(&mut self, name: [u8; MAX_DIR_NAME]) -> (entered: Result<usize, ShellError>)
        requires
            old(self).wf(),
        ensures
            final(self).wf(),
            agrees(entered, old(self)@.change_dir(name@)),
            final(self)@ == old(self)@.after_change_dir(name@),
    {
        if name[0] == SPACE {
            return Err(ShellError::EmptyArgument);
        }
        proof {
            self.dirs.lemma_tree_wf();
            assert(self.dirs@.node_ok(self.current_dir.index as int));
        }
        if name[0] == DOT {
            let parent = self.current_dir.parent_index;
            self.refresh(parent);
            return Ok(parent);
        }
        match self.find_dir(name) {
            Some(child) => {
                proof {
                    lemma_found_child(self.dirs@, self.current_dir.index as int, name@);
                }
                self.refresh(child);
                Ok(child)
            },
            None => Err(ShellError::NotFound),
        }
    }

    /// Removes the named child of the current directory with all below it.
    pub fn remove_dir(&mut self, name: [u8; MAX_DIR_NAME]) -> (removed: Result<usize, ShellError>)
        requires
            old(self).wf(),
        ensures
            final(self).wf(),
            agrees(removed, old(self)@.remove_dir(name@)),
            final(self)@ == old(self)@.after_remove_dir(name@),
    {
        if name[0] == SPACE {
            return Err(ShellError::EmptyArgument);
        }
        match self.find_dir(name) {
            Some(child) => {
                let here = self.current_dir.index;
                let ghost t = self.dirs@;
                proof {
                    self.dirs.lemma_tree_wf();
                    lemma_found_child(t, here as int, name@);
                }
                let gone = self.dirs.remove_subtree(child);
                self.refresh(here);
                Ok(child)
            },
            None => Err(ShellError::NotFound),
        }
    }

    /// The text of the subtree of `index`, a line for each directory: four
    /// spaces for every level, counted from `level` for `index` itself, a
    /// slash, the name as it is stored, and a line feed. Each directory
    /// stands before its children.
    pub fn unwrap_dir(&self, index: usize, level: u8) -> (shown: Vec<u8>)
        requires
            self.wf(),
        ensures
            shown@ == tree_text(self@.tree.listing_at(index as int, level as int)),
    {
        let lines = self.dirs.unwrap_dir(index, level);
        let mut shown: Vec<u8> = Vec::new();
        append_tree(&mut shown, &lines);
        proof {
            assert(Seq::<u8>::empty() + tree_text(lines_view(lines@)) =~= tree_text(
                lines_view(lines@),
            ));
        }
        shown
    }

    /// The subtree of the current directory as lines of depth and name.
    pub fn dir_tree(&self) -> (lines: Vec<(usize, [u8; MAX_DIR_NAME])>)
        requires
            self.wf(),
        ensures
            lines_view(lines@) == self@.tree.listing(self@.cwd),
    {
        self.dirs.list_tree(self.current_dir.index)
    }

    /// Puts behind `out` what is printed behind a command that takes a name.
    fn append_report(
        out: &mut Vec<u8>,
        done: Notice,
        name: &[u8; MAX_DIR_NAME],
        result: &Result<usize, ShellError>,
        Ghost(model): Ghost<Result<int, ShellError>>,
    )
        requires
            agrees(*result, model),
        ensures
            final(out)@ == old(out)@ + report(done, name@, model),
    {
        match result {
            Ok(_) => {
                append_bytes(out, done.bytes());
                append_bytes(out, name.as_slice());
                out.push(NEWLINE);
                proof {
                    assert(out@ =~= old(out)@ + (done.spec_bytes() + name@ + seq![NEWLINE]));
                }
            },
            Err(ShellError::EmptyArgument) => {
                append_bytes(out, Notice::EmptyArgument.bytes());
                out.push(NEWLINE);
                proof {
                    assert(out@ =~= old(out)@ + (Notice::EmptyArgument.spec_bytes() + seq![NEWLINE]));
                }
            },
            Err(ShellError::DuplicateName) => {
                append_bytes(out, Notice::AlreadyExists.bytes());
                out.push(NEWLINE);
                proof {
                    assert(out@ =~= old(out)@ + (Notice::AlreadyExists.spec_bytes() + seq![NEWLINE]));
                }
            },
            Err(ShellError::NotFound) => {
                append_bytes(out, Notice::NoSuchDirectory.bytes());
                out.push(NEWLINE);
                proof {
                    assert(out@ =~= old(out)@ + (Notice::NoSuchDirectory.spec_bytes()
                        + seq![NEWLINE]));
                }
            },
            Err(_) => {
                proof {
                    assert(out@ =~= old(out)@ + Seq::<u8>::empty());
                }
            },
        }
    }

    /// Runs the command that the word names, with the argument, and says
    /// what the display is to show of it.
    pub fn pick_command(&mut self, command: [u8; MAX_LINE], argument: [u8; MAX_DIR_NAME]) -> (reply:
        Reply)
        requires
            old(self).wf(),
        ensures
            final(self).wf(),
            final(self)@ == old(self)@.run(command@, argument@).next,
            reply.status == old(self)@.run(command@, argument@).status,
            reply.display@ == old(self)@.run(command@, argument@).display,
    {
        let ghost before = self@;
        let mut out: Vec<u8> = Vec::new();
        out.push(NEWLINE);
        let ghost head = seq![NEWLINE];
        assert(out@ =~= head);
        let mut status: Result<(), ShellError> = Ok(());
        let mut cleared = false;
        match Self::which_command(command) {
            Command::CurDir => {
                let name = self.cur_dir();
                out.push(SLASH);
                append_bytes(&mut out, name.as_slice());
                out.push(NEWLINE);
                proof {
                    assert(out@ =~= head + (seq![SLASH] + before.tree.name(before.cwd)
                        + seq![NEWLINE]));
                }
            },
            Command::MakeDir => {
                let made = self.make_dir(argument);
                Self::append_report(
                    &mut out,
                    Notice::Created,
                    &argument,
                    &made,
                    Ghost(before.make_dir(argument@)),
                );
                if let Err(e) = made {
                    status = Err(e);
                }
            },
            Command::ChangeDir => {
                let entered = self.change_dir(argument);
                if argument[0] == DOT {
                    proof {
                        assert(out@ =~= head + Seq::<u8>::empty());
                    }
                } else {
                    Self::append_report(
                        &mut out,
                        Notice::Moved,
                        &argument,
                        &entered,
                        Ghost(before.change_dir(argument@)),
                    );
                }
                if let Err(e) = entered {
                    status = Err(e);
                }
            },
            Command::RemoveDir => {
                let removed = self.remove_dir(argument);
                Self::append_report(
                    &mut out,
                    Notice::Removed,
                    &argument,
                    &removed,
                    Ghost(before.remove_dir(argument@)),
                );
                if let Err(e) = removed {
                    status = Err(e);
                }
            },
            Command::DirTree => {
                let shown = self.unwrap_dir(self.current_dir.index, 0);
                append_bytes(&mut out, shown.as_slice());
            },
            Command::Clear => {
                cleared = true;
                proof {
                    assert(out@ =~= head + Seq::<u8>::empty());
                }
            },
            Command::Unknown => {
                append_bytes(&mut out, Notice::NoSuchCommand.bytes());
                out.push(NEWLINE);
                status = Err(ShellError::NotFound);
                proof {
                    assert(out@ =~= head + (Notice::NoSuchCommand.spec_bytes() + seq![NEWLINE]));
                }
            },
        }
        let mut display = print_ops(&out);
        if cleared {
            display.push(DisplayOp::Clear);
        }
        Reply { status, display }
    }

    /// Takes one key. A line feed runs the line typed so far and empties
    /// it; a backspace drops its last byte; every other byte is put behind
    /// it and echoed. A backspace on an empty line and a byte on a full
    /// line change nothing and are reported as failures.
    pub fn on_key_pressed(&mut self, key: u8) -> (reply: Reply)
        requires
            old(self).wf(),
        ensures
            final(self).wf(),
            final(self)@ == old(self)@.press(key).next,
            reply.status == old(self)@.press(key).status,
            reply.display@ == old(self)@.press(key).display,
    {
        if key == NEWLINE {
            let command = parse_command(self.buf, self.buf_len);
            let argument = parse_argument(self.buf, self.buf_len);
            let reply = self.pick_command(command, argument);
            self.buf_len = 0;
            proof {
                assert(self@.line =~= Seq::<u8>::empty());
            }
            reply
        } else if key == BACKSPACE {
            if self.buf_len == 0 {
                Reply { status: Err(ShellError::BufferUnderflow), display: Vec::new() }
            } else {
                self.buf_len -= 1;
                self.buf[self.buf_len] = 0;
                let mut display: Vec<DisplayOp> = Vec::new();
                display.push(DisplayOp::EraseLast);
                proof {
                    assert(self@.line =~= old(self)@.line.drop_last());
                    assert(display@ =~= seq![DisplayOp::EraseLast]);
                }
                Reply { status: Ok(()), display }
            }
        } else {
            if self.buf_len >= MAX_LINE {
                Reply { status: Err(ShellError::BufferOverflow), display: Vec::new() }
            } else {
                self.buf[self.buf_len] = key;
                self.buf_len += 1;
                let mut display: Vec<DisplayOp> = Vec::new();
                display.push(DisplayOp::Put(key));
                proof {
                    assert(self@.line =~= old(self)@.line.push(key));
                    assert(display@ =~= seq![DisplayOp::Put(key)]);
                }
                Reply { status: Ok(()), display }
            }
        }
    }
}

/// A command that fails leaves the tree and the current directory as they
/// were: a second `make_dir` of a name, a `change_dir` or a `remove_dir` of
/// a name that no child bears.
pub proof fn lemma_failure_changes_nothing(v: ShellView, name: Seq<u8>)
    requires
        v.wf(),
    ensures
        v.make_dir(name) is Err ==> v.after_make_dir(name) == v,
        v.change_dir(name) is Err ==> v.after_change_dir(name) == v,
        v.remove_dir(name) is Err ==> v.after_remove_dir(name) == v,
        name[0] != SPACE && v.tree.find_child(v.cwd, name) is Some ==> v.make_dir(name) == Err::<
            int,
            ShellError,
        >(ShellError::DuplicateName),
        name[0] != SPACE && name[0] != DOT && v.tree.find_child(v.cwd, name) is None
            ==> v.change_dir(name) == Err::<int, ShellError>(ShellError::NotFound),
{
}

/// Making a directory, entering it by its name and leaving it by a name
/// that starts with a dot leads back to the very slot where one started,
/// with the tree as the making left it. The name must not itself start
/// with a dot, which would name the parent.
pub proof fn lemma_round_trip(v: ShellView, name: Seq<u8>, up: Seq<u8>)
    requires
        v.wf(),
        v.make_dir(name) is Ok,
        name[0] != DOT,
        up[0] == DOT,
    ensures
        ({
            let made = v.after_make_dir(name);
            let inside = made.after_change_dir(name);
            let back = inside.after_change_dir(up);
            &&& made.change_dir(name) == v.make_dir(name)
            &&& inside.cwd == v.tree.next_free()
            &&& back.cwd == v.cwd
            &&& back.tree == made.tree
        }),
{
    let t = v.tree;
    let slot = t.next_free();
    let made = v.after_make_dir(name);
    let g = made.tree;
    assert(t.node_ok(v.cwd));
    crate::tree::lemma_first_free(t, 1);
    crate::tree::lemma_find_from(t, v.cwd, name, 0);
    crate::tree::lemma_find_from(g, v.cwd, name, 0);
    let last = t.children(v.cwd).len() as int;
    assert(g.children(v.cwd)[last] == slot);
    assert(g.name(slot) == name);
    match g.find_from(v.cwd, name, 0) {
        Some(c) => {
            let i = choose|i: int|
                0 <= i < g.children(v.cwd).len() && #[trigger] g.children(v.cwd)[i] == c && g.name(c)
                    == name && forall|j: int|
                    0 <= j < i ==> g.name(#[trigger] g.children(v.cwd)[j]) != name;
            if i < last {
                let old_child = t.children(v.cwd)[i];
                assert(t.child_ok(v.cwd, old_child));
                assert(g.children(v.cwd)[i] == old_child);
                assert(t.name(old_child) != name);
            }
        },
        None => {
            assert(g.name(g.children(v.cwd)[last]) != name);
        },
    }
}

/// Whatever key is pressed, the shell is well formed afterwards: the line
/// fits its buffer, the tree is a tree, and the current directory exists.
pub proof fn lemma_press_keeps_wf(v: ShellView, key: u8)
    requires
        v.wf(),
    ensures
        v.press(key).next.wf(),
{
    if key == NEWLINE {
        let command = command_word(v.line);
        let name = argument_word(v.line);
        let t = v.tree;
        assert(t.node_ok(v.cwd));
        match recognize(command) {
            Command::MakeDir => {
                if v.make_dir(name) is Ok {
                    crate::tree::lemma_with_child_wf(t, v.cwd, name);
                }
            },
            Command::ChangeDir => {
                if v.change_dir(name) is Ok && name[0] != DOT {
                    lemma_found_child(t, v.cwd, name);
                }
            },
            Command::RemoveDir => {
                if v.remove_dir(name) is Ok {
                    lemma_found_child(t, v.cwd, name);
                    crate::tree::lemma_without_subtree_wf(t, t.find_child(v.cwd, name)->Some_0);
                }
            },
            _ => {},
        }
    }
}

/// A full line takes no further byte: the key is refused, nothing is
/// echoed, and the line, the tree and the current directory stay as they
/// are. Only a line feed or a backspace makes room again.
pub proof fn lemma_full_line_refuses(v: ShellView, key: u8)
    requires
        v.wf(),
        v.line.len() == MAX_LINE,
        key != NEWLINE,
        key != BACKSPACE,
    ensures
        v.press(key).next == v,
        v.press(key).status == Err::<(), ShellError>(ShellError::BufferOverflow),
        v.press(key).display == Seq::<DisplayOp>::empty(),
{
}

/// What the listing of a directory shows, for every start and every
/// starting level: line `i` is that of the directory that the walk comes
/// by at `i`, with its name as stored, at the starting level plus the
/// number of steps from the start down to it; so it is printed behind four
/// spaces for each of those levels.
pub proof fn lemma_shown_line(t: Tree, index: int, level: int, i: int)
    requires
        t.wf(),
        0 <= level,
        0 <= i < t.walk(index, level).len(),
    ensures
        ({
            let found = t.walk(index, level)[i].1;
            let below = t.depth[found] - t.depth[index];
            &&& t.under(index, found)
            &&& 0 <= below
            &&& t.listing_at(index, level).len() == t.walk(index, level).len()
            &&& t.listing_at(index, level)[i] == (level + below, t.name(found))
            &&& crate::display::indent(level + below).len() == 4 * (level + below)
        }),
{
    let found = t.walk(index, level)[i].1;
    crate::tree::lemma_walk_under(t, index, level);
    assert(t.under(index, found));
    crate::tree::lemma_under_bounds(t, index, found);
    crate::tree::lemma_line_depth(t, index, level, i);
}

/// A directory without children is shown as its own line and nothing
/// else, at whatever level the listing starts.
pub proof fn lemma_shown_leaf(t: Tree, index: int, level: int)
    requires
        t.wf(),
        t.has(index),
        t.children(index).len() == 0,
    ensures
        t.listing_at(index, level) == seq![(level, t.name(index))],
        tree_text(t.listing_at(index, level)) == crate::display::tree_line(level, t.name(index)),
{
    crate::tree::lemma_listing_is_pre_order(t, index, level);
    assert(t.walk(index, level) == seq![(level, index)]);
    assert(t.listing_at(index, level) =~= seq![(level, t.name(index))]);
    crate::display::lemma_text_of_one_line(level, t.name(index));
}

} // verus!
