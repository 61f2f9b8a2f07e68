use nogors::nogo::Nogo;
use nogors::nogo::NogoError;
use nogors::text::chars_of;
use nogors::text::format_number;
use nogors::text::is_whitespace;
use nogors::text::join_numbers;
use nogors::text::parse_number;
use nogors::text::parse_numbers;
use nogors::text::split_words;
use nogors::text::string_of;
use nogors::text::trim;

fn chars(s: &str) -> Vec<char> {
    s.chars().collect()
}

#[test]
fn chars_and_strings_hold_the_same() {
    assert_eq!(chars_of(""), Vec::<char>::new());
    assert_eq!(chars_of("a.O\n"), vec!['a', '.', 'O', '\n']);
    assert_eq!(chars_of("é\u{3000}𝄞"), vec!['é', '\u{3000}', '𝄞']);
    assert_eq!(string_of(&Vec::new()), "");
    assert_eq!(string_of(&vec!['4', ' ', 'x']), "4 x");
    assert_eq!(string_of(&chars_of("X.O.O\n.O.X.\n")), "X.O.O\n.O.X.\n");
}

#[test]
fn whitespace_is_what_the_standard_library_calls_so() {
    for n in 0..=0x10ffffu32 {
        if let Some(c) = char::from_u32(n) {
            assert_eq!(is_whitespace(c), c.is_whitespace(), "character {:x}", n);
        }
    }
}

#[test]
fn words_are_the_runs_between_whitespace() {
    let cases = [
        "",
        " ",
        "a",
        " a",
        "a ",
        "ab cd",
        "  ab \t cd\n\nef  ",
        "7 7 0 1 4 0 2 10 0",
        "X.O\n.O.\n",
        "a\u{a0}b\u{2003}c\u{85}d",
    ];
    for text in cases {
        let expected: Vec<Vec<char>> = text.split_whitespace().map(chars).collect();
        assert_eq!(split_words(&chars(text)), expected, "text {:?}", text);
    }
    assert_eq!(
        split_words(&chars("  ab \t cd\n\nef  ")),
        vec![chars("ab"), chars("cd"), chars("ef")]
    );
}

#[test]
fn numbers_are_read_in_decimal() {
    assert_eq!(parse_number(&chars("0")), Some(0));
    assert_eq!(parse_number(&chars("7")), Some(7));
    assert_eq!(parse_number(&chars("1000003")), Some(1_000_003));
    assert_eq!(parse_number(&chars("+42")), Some(42));
    assert_eq!(parse_number(&chars("007")), Some(7));
    assert_eq!(parse_number(&chars(&usize::MAX.to_string())), Some(usize::MAX));
    assert_eq!(parse_number(&chars(&format!("000{}", usize::MAX))), Some(usize::MAX));
}

#[test]
fn what_is_no_number_is_not_read() {
    let max = usize::MAX.to_string();
    let over = format!("{}{}", &max[..max.len() - 1], "6");
    let cases = [
        "", "+", "-", "-1", "-0", "++1", "+-1", "1+", "1 ", " 1", "1.0", "1e3", "0x10", "1_000",
        "a", "12a", "a12", "٣", "１", &over, &format!("{}0", max), "99999999999999999999999999",
    ];
    for text in cases {
        assert_eq!(parse_number(&chars(text)), None, "text {:?}", text);
        assert_eq!(text.parse::<usize>().ok(), None, "text {:?}", text);
    }
}

#[test]
fn numbers_are_read_as_the_standard_library_reads_them() {
    let cases = ["0", "+0", "10", "+10", "0010", "18446744073709551615", "18446744073709551616"];
    for text in cases {
        assert_eq!(parse_number(&chars(text)), text.parse::<usize>().ok(), "text {:?}", text);
    }
}

#[test]
fn numbers_are_written_in_decimal() {
    assert_eq!(format_number(0), chars("0"));
    assert_eq!(format_number(9), chars("9"));
    assert_eq!(format_number(10), chars("10"));
    assert_eq!(format_number(1_000_003), chars("1000003"));
    assert_eq!(format_number(usize::MAX), chars(&usize::MAX.to_string()));
}

#[test]
fn number_written_and_read_is_the_same() {
    for n in [0, 1, 9, 10, 11, 99, 100, 12345, 1_000_002, 1_000_003, usize::MAX - 1, usize::MAX] {
        assert_eq!(parse_number(&format_number(n)), Some(n));
    }
}

#[test]
fn lines_of_numbers_are_written_and_read() {
    assert_eq!(join_numbers(&Vec::new()), chars(""));
    assert_eq!(join_numbers(&vec![5]), chars("5"));
    assert_eq!(join_numbers(&vec![7, 7, 0, 1, 4, 0, 2, 10, 0]), chars("7 7 0 1 4 0 2 10 0"));
    assert_eq!(parse_numbers(&chars("7 7 0 1 4 0 2 10 0")), Some(vec![7, 7, 0, 1, 4, 0, 2, 10, 0]));
    assert_eq!(parse_numbers(&chars("  12\t+3 \n")), Some(vec![12, 3]));
    assert_eq!(parse_numbers(&chars("")), Some(Vec::new()));
    assert_eq!(parse_numbers(&chars("1 2 x")), None);
    assert_eq!(parse_numbers(&chars("1,2")), None);
    let ns = vec![0, usize::MAX, 17, 1_000_003];
    assert_eq!(parse_numbers(&join_numbers(&ns)), Some(ns));
}

#[test]
fn trim_takes_whitespace_off_both_ends() {
    for text in ["", " ", "  \n\t ", "12", " 12", "12 ", " 1 2 ", "\u{a0}1\u{3000}", "a  b\n"] {
        assert_eq!(trim(&chars(text)), chars(text.trim()), "text {:?}", text);
    }
    assert_eq!(trim(&chars("  1 2\n")), chars("1 2"));
}

fn args(list: &[&str]) -> Vec<String> {
    list.iter().map(|s| s.to_string()).collect()
}

#[test]
fn arguments_configure_a_new_game() {
    let nogo = Nogo::new(args(&["nogors", "h", "c", "7", "9"])).unwrap();
    assert_eq!(nogo.get_p1type(), 'h');
    assert_eq!(nogo.get_p2type(), 'c');
    assert_eq!(nogo.get_height(), 7);
    assert_eq!(nogo.get_width(), 9);
    assert_eq!(nogo.is_file(), false);
    assert_eq!(nogo.is_save(), false);
    assert_eq!(nogo.get_filename(), "7");
    // The height may have whitespace around it, the width may not.
    let nogo = Nogo::new(args(&["nogors", "c", "c", " 12\n", "+4"])).unwrap();
    assert_eq!(nogo.get_height(), 12);
    assert_eq!(nogo.get_width(), 4);
    // Dimensions are not judged here.
    let nogo = Nogo::new(args(&["nogors", "c", "h", "0", "5000"])).unwrap();
    assert_eq!(nogo.get_height(), 0);
    assert_eq!(nogo.get_width(), 5000);
    assert_eq!(nogo.start().err(), Some(NogoError::InvalidDimension));
}

#[test]
fn arguments_configure_a_saved_game() {
    let nogo = Nogo::new(args(&["nogors", "c", "h", "game.txt"])).unwrap();
    assert_eq!(nogo.get_p1type(), 'c');
    assert_eq!(nogo.get_p2type(), 'h');
    assert_eq!(nogo.get_height(), 0);
    assert_eq!(nogo.get_width(), 0);
    assert_eq!(nogo.is_file(), true);
    assert_eq!(nogo.is_save(), false);
    assert_eq!(nogo.get_filename(), "game.txt");
}

#[test]
fn arguments_are_rejected_in_order() {
    let err = |list: &[&str]| Nogo::new(args(list)).err();
    assert_eq!(err(&[]), Some(NogoError::NumArg));
    assert_eq!(err(&["nogors"]), Some(NogoError::NumArg));
    assert_eq!(err(&["nogors", "h"]), Some(NogoError::NumArg));
    assert_eq!(err(&["nogors", "h", "c"]), Some(NogoError::NumArg));
    assert_eq!(err(&["nogors", "h", "c", "7", "9", "1"]), Some(NogoError::NumArg));
    assert_eq!(err(&["nogors", "h", "c", "7", "x"]), Some(NogoError::Parse));
    assert_eq!(err(&["nogors", "h", "c", "x", "9"]), Some(NogoError::Parse));
    assert_eq!(err(&["nogors", "h", "c", "7", " 9"]), Some(NogoError::Parse));
    assert_eq!(err(&["nogors", "h", "c", "-7", "9"]), Some(NogoError::Parse));
    assert_eq!(err(&["nogors", "a", "c", "7", "9"]), Some(NogoError::IncorrectType));
    assert_eq!(err(&["nogors", "h", "b", "7", "9"]), Some(NogoError::IncorrectType));
    assert_eq!(err(&["nogors", "H", "c", "game.txt"]), Some(NogoError::IncorrectType));
    assert_eq!(err(&["nogors", "h", "hc", "game.txt"]), Some(NogoError::IncorrectType));
    assert_eq!(err(&["nogors", "h", "", "game.txt"]), Some(NogoError::IncorrectType));
    // A number that cannot be read is told before too many arguments, and
    // those before a wrong type.
    assert_eq!(err(&["nogors", "a", "b", "7", "x", "1"]), Some(NogoError::Parse));
    assert_eq!(err(&["nogors", "a", "b", "7", "9", "1"]), Some(NogoError::NumArg));
    assert_eq!(err(&["nogors", "a", "b", "x", "9"]), Some(NogoError::Parse));
}

#[test]
fn request_to_save_is_kept_until_done() {
    let mut nogo = Nogo::with_players('h', 'c', 5, 6);
    assert_eq!(nogo.is_save(), false);
    assert_eq!(nogo.get_filename(), "");
    nogo.request_save(String::from("out.txt"));
    assert_eq!(nogo.is_save(), true);
    assert_eq!(nogo.get_filename(), "out.txt");
    assert_eq!((nogo.get_p1type(), nogo.get_p2type()), ('h', 'c'));
    assert_eq!((nogo.get_height(), nogo.get_width()), (5, 6));
    nogo.save_done();
    assert_eq!(nogo.is_save(), false);
    assert_eq!(nogo.get_filename(), "out.txt");
    nogo.set_dimensions(8, 9);
    assert_eq!((nogo.get_height(), nogo.get_width()), (8, 9));
    assert_eq!(nogo.get_filename(), "out.txt");
}

#[test]
fn errors_have_their_words_and_exit_codes() {
    let all = [
        (NogoError::NumArg, Some(1), "Usage: nogors p1type p2type [height width | filename]"),
        (NogoError::IncorrectType, Some(2), "Invalid type"),
        (NogoError::InvalidDimension, Some(3), "Invalid board dimension"),
        (NogoError::FailedToOpen, Some(4), "Unable to open file"),
        (NogoError::CorruptFile, Some(5), "Incorrect file contents"),
        (NogoError::Parse, Some(3), "Problem parsing"),
        (NogoError::Io, Some(4), "Io failed"),
        (NogoError::InvalidPosition, None, "Invalid position"),
        (NogoError::PositionTaken, None, "Position already taken"),
    ];
    for (e, code, words) in all {
        assert_eq!(e.exit_code(), code);
        assert_eq!(e.message(), words);
        assert_eq!(e.reported_as().exit_code(), code);
    }
    assert_eq!(NogoError::Parse.reported_as(), NogoError::InvalidDimension);
    assert_eq!(NogoError::Io.reported_as(), NogoError::FailedToOpen);
    assert_eq!(NogoError::CorruptFile.reported_as(), NogoError::CorruptFile);
    assert_eq!(NogoError::Parse.reported_as().message(), "Invalid board dimension");
    assert_eq!(NogoError::Io.reported_as().message(), "Unable to open file");
}
