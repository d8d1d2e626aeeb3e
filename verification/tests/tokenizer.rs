use dir_shell::shell::{Command, Shell};
use dir_shell::token::{parse_argument, parse_command, tokenize};

fn line_of(text: &str) -> ([u8; 80], usize) {
    let mut buf = [0u8; 80];
    for (i, b) in text.bytes().enumerate() {
        buf[i] = b;
    }
    (buf, text.len())
}

fn word80(text: &str) -> [u8; 80] {
    let mut word = [b' '; 80];
    for (i, b) in text.bytes().enumerate() {
        word[i] = b;
    }
    word
}

fn word10(text: &str) -> [u8; 10] {
    let mut word = [b' '; 10];
    for (i, b) in text.bytes().enumerate() {
        word[i] = b;
    }
    word
}

#[test]
fn parse_command_takes_the_first_word() {
    let (buf, len) = line_of("make_dir kids");
    assert_eq!(parse_command(buf, len), word80("make_dir"));
}

#[test]
fn parse_command_takes_the_whole_line_without_a_space() {
    let (buf, len) = line_of("dir_tree");
    assert_eq!(parse_command(buf, len), word80("dir_tree"));
}

#[test]
fn parse_command_of_an_empty_line_is_padding() {
    let (buf, _) = line_of("leftover");
    assert_eq!(parse_command(buf, 0), [b' '; 80]);
}

#[test]
fn parse_command_stops_at_the_length() {
    let (buf, _) = line_of("clearance");
    assert_eq!(parse_command(buf, 5), word80("clear"));
}

#[test]
fn parse_command_of_a_leading_space_is_padding() {
    let (buf, len) = line_of(" cur_dir");
    assert_eq!(parse_command(buf, len), [b' '; 80]);
}

#[test]
fn parse_command_of_a_full_line_without_a_space() {
    let buf = [b'a'; 80];
    assert_eq!(parse_command(buf, 80), [b'a'; 80]);
}

#[test]
fn parse_command_treats_a_length_beyond_the_buffer_as_the_buffer() {
    let buf = [b'a'; 80];
    assert_eq!(parse_command(buf, 200), [b'a'; 80]);
    assert_eq!(parse_argument(buf, 200), [b' '; 10]);
}

#[test]
fn parse_argument_takes_the_second_word() {
    let (buf, len) = line_of("make_dir kids");
    assert_eq!(parse_argument(buf, len), word10("kids"));
}

#[test]
fn parse_argument_is_padding_when_missing() {
    let (buf, len) = line_of("make_dir");
    assert_eq!(parse_argument(buf, len), [b' '; 10]);
    let (buf, len) = line_of("make_dir ");
    assert_eq!(parse_argument(buf, len), [b' '; 10]);
}

#[test]
fn parse_argument_cuts_a_long_word() {
    let (buf, len) = line_of("make_dir abcdefghijklmnop");
    assert_eq!(parse_argument(buf, len), *b"abcdefghij");
}

#[test]
fn parse_argument_keeps_a_word_of_full_width() {
    let (buf, len) = line_of("make_dir abcdefghij");
    assert_eq!(parse_argument(buf, len), *b"abcdefghij");
}

#[test]
fn parse_argument_ignores_further_words() {
    let (buf, len) = line_of("change_dir a b c");
    assert_eq!(parse_argument(buf, len), word10("a"));
}

#[test]
fn parse_argument_behind_two_spaces_is_padding() {
    let (buf, len) = line_of("make_dir  kids");
    assert_eq!(parse_argument(buf, len), [b' '; 10]);
}

#[test]
fn parse_argument_stops_at_the_length() {
    let (buf, _) = line_of("make_dir kids");
    assert_eq!(parse_argument(buf, 11), word10("ki"));
}

#[test]
fn parse_argument_at_the_end_of_a_full_line() {
    let mut buf = [b'a'; 80];
    buf[76] = b' ';
    assert_eq!(parse_argument(buf, 80), word10("aaa"));
    assert_eq!(parse_command(buf, 80), word80(&"a".repeat(76)));
}

#[test]
fn tokenize_gives_both_words() {
    let (buf, len) = line_of("remove_dir toys now");
    let (command, argument) = tokenize(buf, len);
    assert_eq!(command, word80("remove_dir"));
    assert_eq!(argument, word10("toys"));
}

#[test]
fn compare_commands_wants_the_whole_keyword() {
    assert!(Shell::compare_commands("make_dir", word80("make_dir")));
    assert!(!Shell::compare_commands("make_dir", word80("make_di")));
    assert!(!Shell::compare_commands("make_dir", word80("make_dirs")));
    assert!(!Shell::compare_commands("make_dir", word80("Make_dir")));
    assert!(!Shell::compare_commands("clear", word80("cur_dir")));
}

#[test]
fn compare_commands_with_an_empty_keyword() {
    assert!(Shell::compare_commands("", [b' '; 80]));
    assert!(!Shell::compare_commands("", word80("x")));
}

#[test]
fn compare_commands_with_a_keyword_that_fills_the_word() {
    let keyword = "k".repeat(80);
    assert!(Shell::compare_commands(&keyword, [b'k'; 80]));
    let mut other = [b'k'; 80];
    other[79] = b'j';
    assert!(!Shell::compare_commands(&keyword, other));
}

#[test]
fn compare_commands_with_a_keyword_longer_than_the_word() {
    let keyword = "k".repeat(81);
    assert!(!Shell::compare_commands(&keyword, [b'k'; 80]));
}

#[test]
fn compare_commands_goes_by_bytes() {
    let mut command = [b' '; 80];
    command[0] = 0xc3;
    command[1] = 0xa9;
    assert!(Shell::compare_commands("\u{e9}", command));
}

#[test]
fn which_command_knows_the_six_keywords() {
    assert_eq!(Shell::which_command(word80("cur_dir")), Command::CurDir);
    assert_eq!(Shell::which_command(word80("make_dir")), Command::MakeDir);
    assert_eq!(Shell::which_command(word80("change_dir")), Command::ChangeDir);
    assert_eq!(Shell::which_command(word80("remove_dir")), Command::RemoveDir);
    assert_eq!(Shell::which_command(word80("dir_tree")), Command::DirTree);
    assert_eq!(Shell::which_command(word80("clear")), Command::Clear);
}

#[test]
fn which_command_knows_nothing_else() {
    assert_eq!(Shell::which_command([b' '; 80]), Command::Unknown);
    assert_eq!(Shell::which_command(word80("ls")), Command::Unknown);
    assert_eq!(Shell::which_command(word80("cur_di")), Command::Unknown);
    assert_eq!(Shell::which_command(word80("cur_dirs")), Command::Unknown);
    assert_eq!(Shell::which_command(word80("CLEAR")), Command::Unknown);
}

#[test]
fn keywords_are_the_words_that_are_typed() {
    assert_eq!(Command::CurDir.keyword(), "cur_dir");
    assert_eq!(Command::MakeDir.keyword(), "make_dir");
    assert_eq!(Command::ChangeDir.keyword(), "change_dir");
    assert_eq!(Command::RemoveDir.keyword(), "remove_dir");
    assert_eq!(Command::DirTree.keyword(), "dir_tree");
    assert_eq!(Command::Clear.keyword(), "clear");
    assert_eq!(Command::Unknown.keyword(), "");
}
