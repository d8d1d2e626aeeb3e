//! What the shell asks of the display, and the text of what it says.

use vstd::prelude::*;
use vstd::string::StringSliceAdditionalSpecFns;
use crate::arena::lines_view;
use crate::limits::{MAX_DIR_NAME, NEWLINE, SLASH, SPACE};

verus! {

/// One request to the display.
#[derive(Clone, Copy, Debug, PartialEq, Eq, Structural)]
pub enum DisplayOp {
    /// Print one byte as a character.
    Put(u8),
    /// Clear the whole display.
    Clear,
    /// Erase the character printed last.
    EraseLast,
}

/// The fixed pieces of text that the shell prints.
#[derive(Clone, Copy, Debug, PartialEq, Eq, Structural)]
pub enum Notice {
    EmptyArgument,
    AlreadyExists,
    NoSuchDirectory,
    NoSuchCommand,
    Created,
    Moved,
    Removed,
}

impl Notice {
    /// The bytes of the text.
    pub open spec fn spec_bytes(self) -> Seq<u8> {
        match self {
            Notice::EmptyArgument => "Put not empty argument!".spec_bytes(),
            Notice::AlreadyExists => "Such dir is already exists!".spec_bytes(),
            Notice::NoSuchDirectory => "No such directory!".spec_bytes(),
            Notice::NoSuchCommand => "No such command!".spec_bytes(),
            Notice::Created => "Success! Created dir ".spec_bytes(),
            Notice::Moved => "Success moved to dir ".spec_bytes(),
            Notice::Removed => "Success removed dir ".spec_bytes(),
        }
    }

    /// The bytes of the text.
    pub fn bytes(self) -> (text: &'static [u8])
        ensures
            text@ == self.spec_bytes(),
    {
        match self {
            Notice::EmptyArgument => "Put not empty argument!".as_bytes(),
            Notice::AlreadyExists => "Such dir is already exists!".as_bytes(),
            Notice::NoSuchDirectory => "No such directory!".as_bytes(),
            Notice::NoSuchCommand => "No such command!".as_bytes(),
            Notice::Created => "Success! Created dir ".as_bytes(),
            Notice::Moved => "Success moved to dir ".as_bytes(),
            Notice::Removed => "Success removed dir ".as_bytes(),
        }
    }
}

/// The requests that print the bytes one after the other.
pub open spec fn text(bytes: Seq<u8>) -> Seq<DisplayOp> {
    bytes.map_values(|b: u8| DisplayOp::Put(b))
}

/// The indentation of a line at the given depth: four spaces a level.
pub open spec fn indent(depth: int) -> Seq<u8> {
    Seq::new((4 * depth) as nat, |i: int| SPACE)
}

/// One line of a rendered tree: the indentation, a slash, the name as it is
/// stored, and a line feed.
pub open spec fn tree_line(depth: int, name: Seq<u8>) -> Seq<u8> {
    indent(depth) + seq![SLASH] + name + seq![NEWLINE]
}

/// The rendered tree: its lines, one after the other.
pub open spec fn tree_text(lines: Seq<(int, Seq<u8>)>) -> Seq<u8>
    decreases lines.len(),
{
    if lines.len() == 0 {
        Seq::empty()
    } else {
        tree_text(lines.drop_last()) + tree_line(lines.last().0, lines.last().1)
    }
}

/// Puts the bytes behind what `out` holds.
pub fn append_bytes(out: &mut Vec<u8>, bytes: &[u8])
    ensures
        final(out)@ == old(out)@ + bytes@,
{
    let mut i: usize = 0;
    while i < bytes.len()
        invariant
            i <= bytes.len(),
            out@ == old(out)@ + bytes@.take(i as int),
        decreases bytes.len() - i,
    {
        out.push(bytes[i]);
        proof {
            assert(bytes@.take(i + 1) =~= bytes@.take(i as int).push(bytes@[i as int]));
        }
        i += 1;
    }
    proof {
        assert(bytes@.take(i as int) =~= bytes@);
    }
}

/// The requests that print the bytes one after the other.
pub fn print_ops(bytes: &Vec<u8>) -> (ops: Vec<DisplayOp>)
    ensures
        ops@ == text(bytes@),
{
    let mut ops: Vec<DisplayOp> = Vec::new();
    let mut i: usize = 0;
    while i < bytes.len()
        invariant
            i <= bytes.len(),
            ops@ == text(bytes@.take(i as int)),
        decreases bytes.len() - i,
    {
        ops.push(DisplayOp::Put(bytes[i]));
        proof {
            assert(bytes@.take(i + 1) =~= bytes@.take(i as int).push(bytes@[i as int]));
            assert(ops@ =~= text(bytes@.take(i + 1)));
        }
        i += 1;
    }
    proof {
        assert(bytes@.take(i as int) =~= bytes@);
    }
    ops
}

/// Renders a listing behind what `out` holds, a line for each directory.
pub fn append_tree(out: &mut Vec<u8>, lines: &Vec<(usize, [u8; MAX_DIR_NAME])>)
    ensures
        final(out)@ == old(out)@ + tree_text(lines_view(lines@)),
{
    let ghost all = lines_view(lines@);
    let mut i: usize = 0;
    while i < lines.len()
        invariant
            i <= lines.len(),
            all == lines_view(lines@),
            out@ == old(out)@ + tree_text(all.take(i as int)),
        decreases lines.len() - i,
    {
        let (depth, name) = lines[i];
        let ghost before = out@;
        let mut level: usize = 0;
        while level < depth
            invariant
                level <= depth,
                out@ == before + indent(level as int),
            decreases depth - level,
        {
            out.push(SPACE);
            out.push(SPACE);
            out.push(SPACE);
            out.push(SPACE);
            proof {
                assert(indent(level + 1) =~= indent(level as int) + seq![SPACE, SPACE, SPACE, SPACE]);
                assert(out@ =~= before + indent(level + 1));
            }
            level += 1;
        }
        out.push(SLASH);
        append_bytes(out, name.as_slice());
        out.push(NEWLINE);
        proof {
            let done = all.take(i + 1);
            assert(done.drop_last() =~= all.take(i as int));
            assert(done.last() == (depth as int, name@));
            assert(out@ =~= before + tree_line(depth as int, name@));
            assert(out@ =~= old(out)@ + tree_text(done));
        }
        i += 1;
    }
    proof {
        assert(all.take(i as int) =~= all);
    }
}

/// A listing of one line is rendered as that line: the indentation of its
/// depth, a slash, the name and a line feed.
pub proof fn lemma_text_of_one_line(depth: int, name: Seq<u8>)
    ensures
        tree_text(seq![(depth, name)]) == tree_line(depth, name),
        tree_line(depth, name) == indent(depth) + seq![SLASH] + name + seq![NEWLINE],
        depth >= 0 ==> indent(depth).len() == 4 * depth,
{
    let lines = seq![(depth, name)];
    assert(lines.drop_last() =~= Seq::<(int, Seq<u8>)>::empty());
    assert(tree_text(lines.drop_last()) =~= Seq::<u8>::empty());
    assert(Seq::<u8>::empty() + tree_line(depth, name) =~= tree_line(depth, name));
}

/// The rendering of a listing is the rendering of its lines one after the
/// other: that of a listing followed by another is the two renderings,
/// joined.
pub proof fn lemma_text_of_joined(a: Seq<(int, Seq<u8>)>, b: Seq<(int, Seq<u8>)>)
    ensures
        tree_text(a + b) == tree_text(a) + tree_text(b),
    decreases b.len(),
{
    if b.len() == 0 {
        assert(a + b =~= a);
        assert(tree_text(a) + Seq::<u8>::empty() =~= tree_text(a));
    } else {
        lemma_text_of_joined(a, b.drop_last());
        assert((a + b).drop_last() =~= a + b.drop_last());
        assert((a + b).last() == b.last());
        assert(tree_text(a) + tree_text(b.drop_last()) + tree_line(b.last().0, b.last().1)
            =~= tree_text(a) + (tree_text(b.drop_last()) + tree_line(b.last().0, b.last().1)));
    }
}

} // verus!
