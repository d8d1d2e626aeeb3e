//! Splitting the input line into a command word and one argument word.

use vstd::prelude::*;
use crate::limits::{MAX_DIR_NAME, MAX_LINE, SPACE};

verus! {

/// The bytes typed so far: the front of the buffer, as long as the counter
/// says and no longer than the buffer.
pub open spec fn typed_line(buf: Seq<u8>, len: int) -> Seq<u8> {
    buf.take(if len <= buf.len() { len } else { buf.len() as int })
}

/// Where the word that starts at `from` ends: at the first space at or
/// behind `from`, or at the end of the line.
pub open spec fn word_end(line: Seq<u8>, from: int) -> int
    decreases line.len() - from,
{
    if from < 0 || from >= line.len() || line[from] == SPACE {
        from
    } else {
        word_end(line, from + 1)
    }
}

/// The first word of the line, left-justified in a field as wide as the line
/// buffer and padded with spaces.
pub open spec fn command_word(line: Seq<u8>) -> Seq<u8> {
    let end = word_end(line, 0);
    Seq::new(MAX_LINE as nat, |i: int| if i < end { line[i] } else { SPACE })
}

/// The word behind the first space, left-justified in a field as wide as a
/// directory name and padded with spaces. A longer word loses its tail.
pub open spec fn argument_word(line: Seq<u8>) -> Seq<u8> {
    let start = word_end(line, 0) + 1;
    let end = word_end(line, start);
    Seq::new(MAX_DIR_NAME as nat, |i: int| if start + i < end { line[start + i] } else { SPACE })
}

/// `word_end` is the one position that no space precedes within the word
/// and that is a space or the end of the line.
pub proof fn lemma_word_end(line: Seq<u8>, from: int)
    requires
        0 <= from <= line.len(),
    ensures
        from <= word_end(line, from) <= line.len(),
        forall|i: int| from <= i < word_end(line, from) ==> line[i] != SPACE,
        word_end(line, from) == line.len() || line[word_end(line, from)] == SPACE,
    decreases line.len() - from,
{
    if from < line.len() && line[from] != SPACE {
        lemma_word_end(line, from + 1);
    }
}

/// A position with no space between `from` and itself has the same word end.
proof fn lemma_word_end_skip(line: Seq<u8>, from: int, to: int)
    requires
        0 <= from <= to <= line.len(),
        forall|i: int| from <= i < to ==> line[i] != SPACE,
    ensures
        word_end(line, from) == word_end(line, to),
    decreases to - from,
{
    if from < to {
        lemma_word_end_skip(line, from + 1, to);
    }
}

/// The command word of the line typed so far.
pub fn parse_command(buf: [u8; MAX_LINE], buf_len: usize) -> (command: [u8; MAX_LINE])
    ensures
        command@ == command_word(typed_line(buf@, buf_len as int)),
{
    let len: usize = if buf_len < MAX_LINE { buf_len } else { MAX_LINE };
    let ghost line = typed_line(buf@, buf_len as int);
    let mut command: [u8; MAX_LINE] = [SPACE; MAX_LINE];
    let mut n: usize = 0;
    while n < len && buf[n] != SPACE
        invariant
            n <= len <= MAX_LINE,
            line == buf@.take(len as int),
            forall|i: int| 0 <= i < n ==> line[i] != SPACE,
            forall|i: int| 0 <= i < n ==> command[i] == line[i],
            forall|i: int| n <= i < MAX_LINE ==> command[i] == SPACE,
        decreases len - n,
    {
        command[n] = buf[n];
        n += 1;
    }
    proof {
        lemma_word_end_skip(line, 0, n as int);
        assert(word_end(line, n as int) == n);
        assert(command@ =~= command_word(line));
    }
    command
}

/// The argument word of the line typed so far.
pub fn parse_argument(buf: [u8; MAX_LINE], buf_len: usize) -> (argument: [u8; MAX_DIR_NAME])
    ensures
        argument@ == argument_word(typed_line(buf@, buf_len as int)),
{
    let len: usize = if buf_len < MAX_LINE { buf_len } else { MAX_LINE };
    let ghost line = typed_line(buf@, buf_len as int);
    let mut argument: [u8; MAX_DIR_NAME] = [SPACE; MAX_DIR_NAME];
    let mut n: usize = 0;
    while n < len && buf[n] != SPACE
        invariant
            n <= len <= MAX_LINE,
            line == buf@.take(len as int),
            forall|i: int| 0 <= i < n ==> line[i] != SPACE,
        decreases len - n,
    {
        n += 1;
    }
    proof {
        lemma_word_end_skip(line, 0, n as int);
        assert(word_end(line, n as int) == n);
    }
    n += 1;
    let start: usize = n;
    let mut i: usize = 0;
    while n < len && buf[n] != SPACE && i < MAX_DIR_NAME
        invariant
            start <= n,
            n <= len || n == start,
            len <= MAX_LINE,
            n == start + i,
            i <= MAX_DIR_NAME,
            line == buf@.take(len as int),
            forall|j: int| start <= j < n ==> line[j] != SPACE,
            forall|j: int| 0 <= j < i ==> argument[j] == line[start + j],
            forall|j: int| i <= j < MAX_DIR_NAME ==> argument[j] == SPACE,
        decreases MAX_DIR_NAME - i,
    {
        argument[i] = buf[n];
        n += 1;
        i += 1;
    }
    proof {
        if start <= len {
            lemma_word_end(line, start as int);
            lemma_word_end_skip(line, start as int, n as int);
        }
        assert(argument@ =~= argument_word(line));
    }
    argument
}

/// Both words of the line typed so far.
pub fn tokenize(buf: [u8; MAX_LINE], buf_len: usize) -> (words: ([u8; MAX_LINE], [u8; MAX_DIR_NAME]))
    ensures
        words.0@ == command_word(typed_line(buf@, buf_len as int)),
        words.1@ == argument_word(typed_line(buf@, buf_len as int)),
{
    (parse_command(buf, buf_len), parse_argument(buf, buf_len))
}

} // verus!
