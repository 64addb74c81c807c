use ferron_language_server::cursor::{
    is_first_word_on_line, is_name_position, word_at_position,
};
use ferron_language_server::protocol::Position;

fn at(line: u32, character: u32) -> Position {
    Position { line, character }
}

#[test]
fn word_under_the_cursor() {
    let text = "root /var\n\tlog-level x_1  y\n";
    assert_eq!(word_at_position(text, at(0, 2)), Some(("root".to_string(), 0, 4)));
    assert_eq!(word_at_position(text, at(1, 5)), Some(("log-level".to_string(), 1, 10)));
    assert_eq!(word_at_position(text, at(1, 12)), Some(("x_1".to_string(), 11, 14)));
}

#[test]
fn word_is_found_from_both_of_its_ends() {
    let text = "  tls {";
    for column in 2..6 {
        assert_eq!(word_at_position(text, at(0, column)), Some(("tls".to_string(), 2, 5)));
    }
    assert_eq!(word_at_position(text, at(0, 1)), None);
}

#[test]
fn columns_are_characters() {
    assert_eq!(word_at_position("é日 größe", at(0, 4)), Some(("größe".to_string(), 3, 8)));
}

#[test]
fn no_word() {
    assert_eq!(word_at_position("", at(0, 0)), None);
    assert_eq!(word_at_position("tls", at(1, 0)), None);
    assert_eq!(word_at_position("tls", at(0, 4)), None);
    assert_eq!(word_at_position("a  b", at(0, 2)), None);
    assert_eq!(word_at_position("root /var", at(0, 6)), None);
    assert_eq!(word_at_position("tls{", at(0, 1)), None);
}

#[test]
fn first_word_of_a_line() {
    let text = "\t  tls on\n   \n";
    assert!(is_first_word_on_line(text, at(0, 3)));
    assert!(is_first_word_on_line(text, at(0, 6)));
    assert!(!is_first_word_on_line(text, at(0, 8)));
    assert!(!is_first_word_on_line(text, at(1, 1)));
    assert!(!is_first_word_on_line(text, at(2, 0)));
}

#[test]
fn first_word_behind_any_whitespace() {
    let text = "\u{3000}\u{a0} tls on\n\u{200b} tls\n";
    assert!(is_first_word_on_line(text, at(0, 4)));
    assert!(!is_first_word_on_line(text, at(0, 8)));
    assert!(!is_first_word_on_line(text, at(1, 3)));
    assert!(!is_first_word_on_line("/ tls", at(0, 3)));
    assert!(!is_first_word_on_line("a/b", at(0, 1)));
}

#[test]
fn where_names_are_typed() {
    let text = "\t  tls /x\n   \na.b c";
    for (line, character) in [(0, 0), (0, 2), (0, 3), (0, 6), (1, 2), (1, 50), (2, 1), (9, 9)] {
        assert!(is_name_position(text, at(line, character)));
    }
    for (line, character) in [(0, 7), (0, 8), (0, 9), (0, 50), (2, 4), (2, 5)] {
        assert!(!is_name_position(text, at(line, character)));
    }
}
