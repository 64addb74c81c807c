use ferron_language_server::text::{
    begins_with, byte_length, chars_of, decimal_text, finishes_with, join, same_text, split_lines,
    text_between, trim,
};

#[test]
fn lines_end_at_line_feeds() {
    let none: Vec<String> = Vec::new();
    assert_eq!(split_lines(""), none);
    assert_eq!(split_lines("a"), vec!["a"]);
    assert_eq!(split_lines("a\n"), vec!["a"]);
    assert_eq!(split_lines("\n"), vec![""]);
    assert_eq!(split_lines("a\r\nb\n\nc"), vec!["a", "b", "", "c"]);
    assert_eq!(split_lines("a\r\r\nb\r"), vec!["a\r", "b\r"]);
}

#[test]
fn lines_are_those_of_the_standard_library() {
    for text in ["", "a", "x\ny\n", "\r\n\r\n", "é {\r\n\tb\n}\n\n", "a\rb\n\r"] {
        let expected: Vec<String> = text.lines().map(|l| l.to_string()).collect();
        assert_eq!(split_lines(text), expected);
    }
}

#[test]
fn trimming_takes_whitespace_only() {
    assert_eq!(trim(""), "");
    assert_eq!(trim(" \t\n"), "");
    assert_eq!(trim("\u{a0} a b \r\n"), "a b");
    assert_eq!(trim("ab"), "ab");
}

#[test]
fn comparing_texts() {
    assert!(same_text("tls", "tls"));
    assert!(!same_text("tls", "tlx"));
    assert!(!same_text("tls", "tl"));
    assert!(begins_with("include", "inc"));
    assert!(begins_with("include", ""));
    assert!(!begins_with("inc", "include"));
    assert!(!begins_with("include", "nc"));
    assert!(finishes_with("site.ferron", ".ferron"));
    assert!(!finishes_with("ferron", ".ferron"));
    assert!(!finishes_with("site.ferrom", ".ferron"));
}

#[test]
fn composing_texts() {
    let none: Vec<String> = Vec::new();
    assert_eq!(join(&none, ", "), "");
    assert_eq!(join(&vec!["http".to_string()], ", "), "http");
    assert_eq!(join(&vec!["http".to_string(), "tcp".to_string()], ", "), "http, tcp");
    assert_eq!(text_between(&chars_of("déjà vu"), 1, 4), "éjà");
    assert_eq!(byte_length("é{"), 3);
}

#[test]
fn numbers_in_decimal() {
    assert_eq!(decimal_text(0), "0");
    assert_eq!(decimal_text(4), "4");
    assert_eq!(decimal_text(10), "10");
    assert_eq!(decimal_text(4294967295), "4294967295");
}
