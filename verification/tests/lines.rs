use cl_parser::parser::parse::{parse, CommandTree, Error, ParseMode};

fn parsed(line: &str, mode: ParseMode) -> (String, Vec<String>) {
    let tree: CommandTree = parse(line.to_string(), mode).unwrap();
    (tree.cmd().clone(), tree.args().clone())
}

fn strings(items: &[&str]) -> Vec<String> {
    items.iter().map(|s| s.to_string()).collect()
}

#[test]
fn command_with_two_arguments() {
    assert_eq!(parsed("ls -la /tmp", ParseMode::Exactly), ("ls".to_string(), strings(&["-la", "/tmp"])));
}

#[test]
fn empty_line_is_empty_source_in_fuzzy_mode() {
    assert!(matches!(parse("".to_string(), ParseMode::Fuzzy), Err(Error::EmptySource)));
}

#[test]
fn missing_command_is_an_error_in_exact_mode() {
    assert!(matches!(parse(":abc".to_string(), ParseMode::Exactly), Err(Error::NoCommandGiven)));
}

#[test]
fn missing_command_is_empty_in_fuzzy_mode() {
    assert_eq!(parsed(":abc", ParseMode::Fuzzy), ("".to_string(), strings(&[":abc"])));
}

#[test]
fn command_alone_has_no_arguments() {
    assert_eq!(parsed("quit", ParseMode::Exactly), ("quit".to_string(), strings(&[])));
    assert_eq!(parsed("quit", ParseMode::Fuzzy), ("quit".to_string(), strings(&[])));
}

#[test]
fn whitespace_only_lines_are_empty_source() {
    for line in ["", " ", "      ", "\t", "\r\n", " \t \n ", "\u{b}\u{c}", "\u{85}\u{a0}\u{1680}\u{2028}\u{3000}"] {
        assert!(matches!(parse(line.to_string(), ParseMode::Exactly), Err(Error::EmptySource)));
        assert!(matches!(parse(line.to_string(), ParseMode::Fuzzy), Err(Error::EmptySource)));
    }
}

#[test]
fn first_run_without_letters_has_no_command() {
    for line in ["123", "  -- x", "42 abc", "/tmp/x y", "\u{e9}", "_"] {
        assert!(matches!(parse(line.to_string(), ParseMode::Exactly), Err(Error::NoCommandGiven)));
        let (cmd, args) = parsed(line, ParseMode::Fuzzy);
        assert_eq!(cmd, "");
        let words: Vec<String> =
            line.split(' ').filter(|w| !w.is_empty()).map(|w| w.to_string()).collect();
        assert_eq!(args, words);
    }
}

#[test]
fn command_is_the_leading_run_of_letters_in_both_modes() {
    for mode in [ParseMode::Exactly, ParseMode::Fuzzy] {
        assert_eq!(parsed("abc123 x", mode), ("abc".to_string(), strings(&["123", "x"])));
        assert_eq!(parsed("Get-Item y", mode), ("Get".to_string(), strings(&["-Item", "y"])));
        assert_eq!(parsed("a", mode), ("a".to_string(), strings(&[])));
        assert_eq!(parsed("caf\u{e9} au lait", mode), ("caf".to_string(), strings(&["\u{e9}", "au", "lait"])));
    }
}

#[test]
fn arguments_keep_their_order() {
    assert_eq!(parsed("cmd a b c", ParseMode::Exactly), ("cmd".to_string(), strings(&["a", "b", "c"])));
    assert_eq!(parsed("cmd c b a a", ParseMode::Exactly), ("cmd".to_string(), strings(&["c", "b", "a", "a"])));
}

#[test]
fn surrounding_whitespace_changes_nothing() {
    for mode in [ParseMode::Exactly, ParseMode::Fuzzy] {
        assert_eq!(parsed("  cmd a  ", mode), parsed("cmd a", mode));
        assert_eq!(parsed("\t\ncmd a\r\n", mode), parsed("cmd a", mode));
        assert_eq!(parsed("\u{3000}cmd a\u{a0}", mode), ("cmd".to_string(), strings(&["a"])));
    }
    assert!(matches!(parse("  :abc ".to_string(), ParseMode::Exactly), Err(Error::NoCommandGiven)));
}

#[test]
fn several_spaces_between_arguments_give_no_empty_argument() {
    assert_eq!(parsed("cmd  a", ParseMode::Exactly), ("cmd".to_string(), strings(&["a"])));
    assert_eq!(parsed("cmd     a   b  ", ParseMode::Exactly), ("cmd".to_string(), strings(&["a", "b"])));
    assert_eq!(parsed(":   x", ParseMode::Fuzzy), ("".to_string(), strings(&[":", "x"])));
}

#[test]
fn only_the_space_separates_arguments() {
    assert_eq!(parsed("cmd a\tb c\nd", ParseMode::Exactly), ("cmd".to_string(), strings(&["a\tb", "c\nd"])));
    assert_eq!(parsed("cmd\targ", ParseMode::Exactly), ("cmd".to_string(), strings(&["\targ"])));
}

#[test]
fn text_outside_ascii_is_parsed_by_characters() {
    assert_eq!(parsed("\u{e9}", ParseMode::Fuzzy), ("".to_string(), strings(&["\u{e9}"])));
    assert_eq!(
        parsed("say h\u{e9}llo w\u{f6}rld \u{65e5}\u{672c}", ParseMode::Exactly),
        ("say".to_string(), strings(&["h\u{e9}llo", "w\u{f6}rld", "\u{65e5}\u{672c}"]))
    );
}

#[test]
fn parse_never_reports_point_out_of_bound() {
    for line in ["", "a", "a ", " a", "a b", "a  b", "1", "\u{e9}\u{e9}", "x\u{1f600} y\u{1f600}"] {
        for mode in [ParseMode::Exactly, ParseMode::Fuzzy] {
            assert!(!matches!(parse(line.to_string(), mode), Err(Error::PointOutOfBound(_))));
        }
    }
}

#[test]
fn arguments_are_never_empty_and_hold_no_space() {
    for line in ["a b", " a   b   c ", "x  ", "-  -  -", "cmd \t ", "a\u{3000} b"] {
        let (_, args) = parsed(line, ParseMode::Fuzzy);
        for arg in args {
            assert!(!arg.is_empty());
            assert!(!arg.contains(' '));
        }
    }
}

#[test]
fn words_written_with_any_gaps_are_found_again() {
    let words = ["-x", "/a/b", "42", "y\tz", "\u{e9}"];
    for first in 1..4usize {
        for other in 1..4usize {
            let mut line = String::from("run");
            for (i, w) in words.iter().enumerate() {
                line.push_str(&" ".repeat(if i == 0 { first } else { other }));
                line.push_str(w);
            }
            for mode in [ParseMode::Exactly, ParseMode::Fuzzy] {
                assert_eq!(parsed(&line, mode), ("run".to_string(), strings(&words)));
            }
        }
    }
}
