//! Formatting a document with the `ferron-fmt` program.

use vstd::prelude::*;
use vstd::utf8::{decode_utf8, encode_utf8, is_ascii_chars, valid_utf8};

use crate::directives::CommandOutput;
use crate::protocol::{Position, Range, TextEdit, TextEditView};
use crate::text::{
    byte_length, decimal, decimal_text, line_break, lines, same_text, split_lines, without_return,
};
use crate::unicode::{lossy_text, read_lossy};

verus! {

/// The arguments with which `ferron-fmt` formats for an editor with the given tab
/// size.
pub fn format_arguments(tab_size: u32) -> (arguments: Vec<String>)
    ensures
        arguments.deep_view() == seq!["--indent-width"@, decimal(tab_size as nat)],
{
    let mut arguments: Vec<String> = Vec::new();
    arguments.push("--indent-width".to_string());
    arguments.push(decimal_text(tab_size));
    assert(arguments.deep_view() =~= seq!["--indent-width"@, decimal(tab_size as nat)]);
    arguments
}

/// From the beginning of a text to the end of its last line, whose columns are
/// counted in bytes.
pub open spec fn whole_range(text: Seq<char>) -> Range {
    let all = lines(text);
    Range {
        start: Position { line: 0, character: 0 },
        end: if all.len() == 0 {
            Position { line: 0, character: 0 }
        } else {
            Position {
                line: (all.len() - 1) as u32,
                character: encode_utf8(all.last()).len() as u32,
            }
        },
    }
}

/// The edit that formats a text, by what `ferron-fmt` did: what it printed in the
/// place of all lines. There is none where the program failed or changed nothing.
pub open spec fn formatted(text: Seq<char>, output: CommandOutput) -> Option<TextEditView> {
    if output.success && lossy_text(output.stdout@) != text {
        Some(TextEditView { range: whole_range(text), new_text: lossy_text(output.stdout@) })
    } else {
        None
    }
}

/// The edit that formats a text, by what `ferron-fmt` did.
pub fn formatting_edit(text: &str, output: &CommandOutput) -> (edit: Option<TextEdit>)
    ensures
        edit.deep_view() == formatted(text@, *output),
        output.success && valid_utf8(output.stdout@) ==> lossy_text(output.stdout@) == decode_utf8(
            output.stdout@,
        ),
{
    if !output.success {
        return None;
    }
    let new_text = read_lossy(output.stdout.as_slice());
    if same_text(new_text.as_str(), text) {
        return None;
    }
    let all = split_lines(text);
    assert(all.deep_view().len() == all@.len());
    let end = if all.len() == 0 {
        Position { line: 0, character: 0 }
    } else {
        let last: usize = all.len() - 1;
        assert(lines(text@).last() == all@[last as int]@);
        Position { line: last as u32, character: byte_length(all[last].as_str()) as u32 }
    };
    let range = Range { start: Position { line: 0, character: 0 }, end };
    Some(TextEdit { range, new_text })
}

// ---------------------------------------------------------------------------
// What the edit does

/// The number of characters before a place in a text.
pub open spec fn offset(text: Seq<char>, line: int, column: int) -> int
    decreases line,
{
    if line <= 0 {
        column
    } else {
        let next = line_break(text) as int + 1;
        next + offset(text.skip(next), line - 1, column)
    }
}

/// A text after an edit.
pub open spec fn edited(text: Seq<char>, edit: TextEditView) -> Seq<char> {
    let start = offset(text, edit.range.start.line as int, edit.range.start.character as int);
    let end = offset(text, edit.range.end.line as int, edit.range.end.character as int);
    text.take(start) + edit.new_text + text.skip(end)
}

/// What ends the last line of a text: a line feed, perhaps behind a carriage return,
/// or nothing.
pub open spec fn final_line_break(text: Seq<char>) -> Seq<char> {
    if text.len() == 0 || text.last() != '\n' {
        seq![]
    } else if text.len() > 1 && text[text.len() - 2] == '\r' {
        seq!['\r', '\n']
    } else {
        seq!['\n']
    }
}

pub(crate) proof fn lemma_line_break_bounds(text: Seq<char>)
    ensures
        line_break(text) <= text.len(),
        line_break(text) < text.len() ==> text[line_break(text) as int] == '\n',
        forall|k: int| 0 <= k < line_break(text) ==> #[trigger] text[k] != '\n',
    decreases text.len(),
{
    if text.len() > 0 && text[0] != '\n' {
        let rest = text.skip(1);
        lemma_line_break_bounds(rest);
        assert forall|k: int| 0 <= k < line_break(text) implies #[trigger] text[k] != '\n' by {
            if k > 0 {
                assert(rest[k - 1] == text[k]);
            }
        }
    }
}

proof fn lemma_rest_after_last_line(text: Seq<char>)
    requires
        text.len() > 0,
    ensures
        lines(text).len() > 0,
        ({
            let end = offset(text, lines(text).len() - 1, lines(text).last().len() as int);
            0 <= end <= text.len() && text.skip(end) == final_line_break(text)
        }),
    decreases text.len(),
{
    lemma_line_break_bounds(text);
    let at = line_break(text) as int;
    if at >= text.len() {
        assert(text.skip(text.len() as int) =~= seq![]);
    } else {
        let rest = text.skip(at + 1);
        let first = text.take(at);
        if rest.len() == 0 {
            assert(lines(rest) =~= seq![]);
            assert(lines(text) =~= seq![without_return(first)]);
            assert(text.last() == '\n');
            if first.len() > 0 && first.last() == '\r' {
                assert(text[text.len() - 2] == '\r');
                assert(text.skip(at - 1) =~= seq!['\r', '\n']);
            } else {
                assert(text.len() > 1 ==> text[text.len() - 2] == first.last());
                assert(text.skip(at) =~= seq!['\n']);
            }
        } else {
            lemma_rest_after_last_line(rest);
            let count = lines(text).len() as int;
            assert(count == 1 + lines(rest).len());
            assert(lines(text).last() == lines(rest).last());
            let inner = offset(rest, count - 2, lines(rest).last().len() as int);
            assert(text.skip(at + 1 + inner) =~= rest.skip(inner));
            assert(final_line_break(rest) =~= final_line_break(text)) by {
                if rest.len() > 1 {
                    assert(rest[rest.len() - 2] == text[text.len() - 2]);
                } else {
                    assert(text[text.len() - 2] == text[at]);
                }
                assert(rest.last() == text.last());
            }
        }
    }
}

/// Formatting puts what the program printed in the place of the text, but for what
/// ends the text's last line, which stays behind it. Columns of the edit are bytes,
/// so this is said of texts whose last line is ASCII.
pub proof fn formatting_replaces_all_lines(text: Seq<char>, output: CommandOutput)
    requires
        lines(text).len() <= u32::MAX,
        lines(text).len() > 0 ==> is_ascii_chars(lines(text).last()) && lines(text).last().len()
            <= u32::MAX,
    ensures
        formatted(text, output) matches Some(edit) ==> edited(text, edit) == lossy_text(
            output.stdout@,
        ) + final_line_break(text),
{
    if let Some(edit) = formatted(text, output) {
        assert(text.take(0) =~= seq![]);
        if text.len() > 0 {
            lemma_rest_after_last_line(text);
            vstd::utf8::is_ascii_chars_encode_utf8(lines(text).last());
        } else {
            assert(text.skip(0) =~= seq![]);
        }
        assert(edited(text, edit) =~= lossy_text(output.stdout@) + final_line_break(text));
    }
}

/// There is an edit exactly if the program succeeded and printed something other than
/// the text. The edit is what was printed, in the place of everything from the first
/// character to the end of the last line.
pub proof fn formatting_edits_what_differs(text: Seq<char>, output: CommandOutput)
    ensures
        formatted(text, output) is Some <==> output.success && lossy_text(output.stdout@) != text,
        formatted(text, output) matches Some(edit) ==> {
            &&& edit.new_text == lossy_text(output.stdout@)
            &&& edit.range.start.line == 0
            &&& edit.range.start.character == 0
            &&& lines(text).len() == 0 ==> edit.range.end == edit.range.start
            &&& lines(text).len() > 0 ==> edit.range.end.line == (lines(text).len() - 1) as u32
            &&& lines(text).len() > 0 ==> edit.range.end.character == encode_utf8(
                lines(text)[lines(text).len() - 1],
            ).len() as u32
        },
{
}

/// A text that the program has formatted is not edited again, if the program prints
/// it as it is.
pub proof fn formatted_texts_stay(text: Seq<char>, output: CommandOutput)
    ensures
        formatted(text, output) matches Some(edit) ==> formatted(edit.new_text, output) is None,
{
}

} // verus!
