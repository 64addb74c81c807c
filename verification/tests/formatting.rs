use ferron_language_server::directives::CommandOutput;
use ferron_language_server::formatting::{format_arguments, formatting_edit};
use ferron_language_server::protocol::{Position, Range, TextEdit};

fn printed(text: &str) -> CommandOutput {
    CommandOutput { success: true, stdout: text.as_bytes().to_vec() }
}

fn edit(line: u32, character: u32, new_text: &str) -> Option<TextEdit> {
    Some(TextEdit {
        range: Range {
            start: Position { line: 0, character: 0 },
            end: Position { line, character },
        },
        new_text: new_text.to_string(),
    })
}

#[test]
fn arguments_of_the_formatter() {
    assert_eq!(format_arguments(4), vec!["--indent-width", "4"]);
    assert_eq!(format_arguments(16), vec!["--indent-width", "16"]);
}

#[test]
fn all_lines_are_replaced() {
    assert_eq!(formatting_edit("a {\n}", &printed("a {\n}\n")), edit(1, 1, "a {\n}\n"));
    assert_eq!(formatting_edit("a  b\n", &printed("a b\n")), edit(0, 4, "a b\n"));
    assert_eq!(formatting_edit("x\né  y", &printed("z")), edit(1, 5, "z"));
    assert_eq!(formatting_edit("", &printed("a")), edit(0, 0, "a"));
}

#[test]
fn nothing_to_change() {
    assert_eq!(formatting_edit("a\n", &printed("a\n")), None);
    let failed = CommandOutput { success: false, stdout: vec![97] };
    assert_eq!(formatting_edit("b\n", &failed), None);
}

#[test]
fn malformed_output_is_replaced() {
    let output = CommandOutput { success: true, stdout: vec![97, 255, 98] };
    assert_eq!(formatting_edit("a", &output), edit(0, 1, "a\u{fffd}b"));
}
