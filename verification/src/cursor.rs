//! What stands under the cursor.

use vstd::prelude::*;

use crate::protocol::Position;
use crate::text::{chars_of, lines, split_lines, text_between};
use crate::unicode::{alphanumeric, whitespace};

verus! {

/// Whether a character separates words.
pub open spec fn separator(c: char) -> bool {
    c == ' ' || c == '\t'
}

/// Whether a character may stand in the name of a directive.
pub open spec fn name_char(c: char) -> bool {
    alphanumeric(c) || c == '_' || c == '-'
}

/// Where the word that reaches up to `column` begins.
pub open spec fn word_start(line: Seq<char>, column: int) -> int
    decreases column,
{
    if column <= 0 || separator(line[column - 1]) {
        column
    } else {
        word_start(line, column - 1)
    }
}

/// Where the word that goes on from `column` ends.
pub open spec fn word_end(line: Seq<char>, column: int) -> int
    decreases line.len() - column,
{
    if column >= line.len() || separator(line[column]) {
        column
    } else {
        word_end(line, column + 1)
    }
}

/// The word of a line around `column`, with the columns where it begins and ends.
/// There is none past the end of the line, between two separators, or where the
/// word could not be the name of a directive.
pub open spec fn word_in_line(line: Seq<char>, column: int) -> Option<(Seq<char>, int, int)> {
    let start = word_start(line, column);
    let end = word_end(line, column);
    let word = line.subrange(start, end);
    if column <= line.len() && start < end && (forall|k: int|
        0 <= k < word.len() ==> name_char(#[trigger] word[k])) {
        Some((word, start, end))
    } else {
        None
    }
}

/// The word of a text under the cursor, with the columns where it begins and ends.
pub open spec fn word_at(text: Seq<char>, position: Position) -> Option<(Seq<char>, u32, u32)> {
    if position.line < lines(text).len() {
        match word_in_line(lines(text)[position.line as int], position.character as int) {
            Some((word, start, end)) => Some((word, start as u32, end as u32)),
            None => None,
        }
    } else {
        None
    }
}

/// Whether only whitespace stands before a column of a line.
pub open spec fn blank_before(line: Seq<char>, column: int) -> bool {
    forall|k: int| 0 <= k < column ==> whitespace(#[trigger] line[k])
}

/// Whether the word under the cursor is the first of its line: only whitespace stands
/// before it. That is where the name of a directive stands.
pub open spec fn first_word(text: Seq<char>, position: Position) -> bool {
    match word_at(text, position) {
        Some((_, start, _)) => blank_before(lines(text)[position.line as int], start as int),
        None => false,
    }
}

/// Whether the name of a directive is, or would be, typed at the cursor: only
/// whitespace stands on the line before the characters that the cursor is among. A
/// cursor past the end of its line counts as at that end, and one below the last line
/// is on an empty line.
pub open spec fn name_position(text: Seq<char>, position: Position) -> bool {
    position.line < lines(text).len() ==> {
        let line = lines(text)[position.line as int];
        let column = if position.character <= line.len() {
            position.character as int
        } else {
            line.len() as int
        };
        blank_before(line, word_start(line, column))
    }
}

/// A word lies around the column it was asked for, within the line.
proof fn lemma_word_bounds(line: Seq<char>, column: int)
    requires
        0 <= column <= line.len(),
    ensures
        0 <= word_start(line, column) <= column <= word_end(line, column) <= line.len(),
        forall|k: int|
            word_start(line, column) <= k < word_end(line, column) ==> !separator(
                #[trigger] line[k],
            ),
        word_start(line, column) == 0 || separator(line[word_start(line, column) - 1]),
        word_end(line, column) == line.len() || separator(line[word_end(line, column)]),
{
    lemma_word_start(line, column);
    lemma_word_end(line, column);
}

proof fn lemma_word_start(line: Seq<char>, column: int)
    requires
        0 <= column <= line.len(),
    ensures
        0 <= word_start(line, column) <= column,
        forall|k: int| word_start(line, column) <= k < column ==> !separator(#[trigger] line[k]),
        word_start(line, column) == 0 || separator(line[word_start(line, column) - 1]),
    decreases column,
{
    if column > 0 && !separator(line[column - 1]) {
        lemma_word_start(line, column - 1);
    }
}

proof fn lemma_word_end(line: Seq<char>, column: int)
    requires
        0 <= column <= line.len(),
    ensures
        column <= word_end(line, column) <= line.len(),
        forall|k: int| column <= k < word_end(line, column) ==> !separator(#[trigger] line[k]),
        word_end(line, column) == line.len() || separator(line[word_end(line, column)]),
    decreases line.len() - column,
{
    if column < line.len() && !separator(line[column]) {
        lemma_word_end(line, column + 1);
    }
}

proof fn lemma_word_start_is(line: Seq<char>, column: int, start: int)
    requires
        0 <= start <= column <= line.len(),
        forall|k: int| start <= k < column ==> !separator(#[trigger] line[k]),
        start == 0 || separator(line[start - 1]),
    ensures
        word_start(line, column) == start,
    decreases column,
{
    if column > start {
        lemma_word_start_is(line, column - 1, start);
    }
}

proof fn lemma_word_end_is(line: Seq<char>, column: int, end: int)
    requires
        0 <= column <= end <= line.len(),
        forall|k: int| column <= k < end ==> !separator(#[trigger] line[k]),
        end == line.len() || separator(line[end]),
    ensures
        word_end(line, column) == end,
    decreases end - column,
{
    if column < end {
        lemma_word_end_is(line, column + 1, end);
    }
}

/// Wherever in a word the cursor is, from before its first character to behind its
/// last, it is on that word.
pub proof fn word_is_the_same_all_over(line: Seq<char>, column: int, other: int)
    requires
        0 <= column <= line.len(),
        word_start(line, column) <= other <= word_end(line, column),
    ensures
        word_in_line(line, other) == word_in_line(line, column),
{
    lemma_word_bounds(line, column);
    lemma_word_start_is(line, other, word_start(line, column));
    lemma_word_end_is(line, other, word_end(line, column));
}

/// The word that is found lies around the cursor, and its columns delimit it.
pub proof fn word_lies_around_the_cursor(text: Seq<char>, position: Position)
    requires
        forall|k: int| 0 <= k < lines(text).len() ==> (#[trigger] lines(text)[k]).len() <= u32::MAX,
    ensures
        word_at(text, position) matches Some((word, start, end)) ==> {
            &&& start <= position.character <= end
            &&& start < end <= lines(text)[position.line as int].len()
            &&& word == lines(text)[position.line as int].subrange(start as int, end as int)
        },
{
    if position.line < lines(text).len() {
        let line = lines(text)[position.line as int];
        if position.character <= line.len() {
            lemma_word_bounds(line, position.character as int);
        }
    }
}

/// A word under the cursor is where the name of a directive is typed exactly if it
/// is the first word of its line.
pub proof fn names_are_first_words(text: Seq<char>, position: Position)
    ensures
        word_at(text, position) is Some ==> (name_position(text, position) <==> first_word(
            text,
            position,
        )),
{
    if word_at(text, position) is Some {
        lemma_word_bounds(lines(text)[position.line as int], position.character as int);
    }
}

/// The cursor is on the longest run around it of characters other than spaces and
/// tabs. The run is the word under the cursor if it is not empty and has only letters,
/// digits, `_` and `-`. The name of a directive is typed there exactly if all that
/// stands before the run is whitespace.
pub proof fn runs_around_the_cursor(text: Seq<char>, position: Position, start: int, end: int)
    requires
        position.line < lines(text).len(),
        0 <= start <= position.character <= end <= lines(text)[position.line as int].len(),
        start == 0 || lines(text)[position.line as int][start - 1] == ' ' || lines(
            text,
        )[position.line as int][start - 1] == '\t',
        forall|k: int|
            start <= k < end ==> (#[trigger] lines(text)[position.line as int][k]) != ' ' && lines(
                text,
            )[position.line as int][k] != '\t',
        end == lines(text)[position.line as int].len() || lines(text)[position.line as int][end]
            == ' ' || lines(text)[position.line as int][end] == '\t',
    ensures
        ({
            let line = lines(text)[position.line as int];
            let named = start < end && forall|k: int|
                start <= k < end ==> alphanumeric(#[trigger] line[k]) || line[k] == '_' || line[k]
                    == '-';
            let blank = forall|k: int| 0 <= k < start ==> whitespace(#[trigger] line[k]);
            &&& word_at(text, position) == if named {
                Some((line.subrange(start, end), start as u32, end as u32))
            } else {
                None
            }
            &&& first_word(text, position) <==> named && blank
            &&& name_position(text, position) <==> blank
        }),
{
    let line = lines(text)[position.line as int];
    lemma_word_start_is(line, position.character as int, start);
    lemma_word_end_is(line, position.character as int, end);
    let word = line.subrange(start, end);
    if start < end && forall|k: int| 0 <= k < word.len() ==> name_char(#[trigger] word[k]) {
        assert forall|k: int| start <= k < end implies alphanumeric(#[trigger] line[k]) || line[k]
            == '_' || line[k] == '-' by {
            assert(name_char(word[k - start]));
        }
    }
}

/// Where the text has no such line, or the line no such column, the cursor is on no
/// word. The name of a directive can be typed on a line below the text; past the end
/// of a line it can where it can at that end.
pub proof fn cursors_outside_of_the_text(text: Seq<char>, position: Position)
    ensures
        position.line >= lines(text).len() ==> {
            &&& word_at(text, position) is None
            &&& !first_word(text, position)
            &&& name_position(text, position)
        },
        position.line < lines(text).len() && position.character > lines(
            text,
        )[position.line as int].len() ==> {
            let length = lines(text)[position.line as int].len() as u32;
            let at_end = Position { line: position.line, character: length };
            &&& word_at(text, position) is None
            &&& !first_word(text, position)
            &&& name_position(text, position) <==> name_position(text, at_end)
        },
{
}

fn is_separator(c: char) -> (yes: bool)
    ensures
        yes == separator(c),
{
    c == ' ' || c == '\t'
}

/// Extracts the word under the cursor and its column span.
pub fn word_at_position(text: &str, position: Position) -> (found: Option<(String, u32, u32)>)
    ensures
        match found {
            Some((word, start, end)) => word_at(text@, position) == Some((word@, start, end)),
            None => word_at(text@, position) is None,
        },
        found matches Some((word, start, end)) ==> {
            &&& word@.len() > 0
            &&& forall|k: int| 0 <= k < word@.len() ==> !whitespace(#[trigger] word@[k])
            &&& start <= position.character <= lines(text@)[position.line as int].len()
        },
{
    let all = split_lines(text);
    assert(all.deep_view().len() == all@.len());
    if position.line as u64 >= all.len() as u64 {
        return None;
    }
    let line_index: usize = position.line as usize;
    assert(lines(text@)[line_index as int] == all@[line_index as int]@);
    let ghost line = lines(text@)[line_index as int];
    let chars = chars_of(all[line_index].as_str());
    if position.character as u64 > chars.len() as u64 {
        return None;
    }
    let column: usize = position.character as usize;
    let mut start: usize = column;
    while start > 0 && !is_separator(chars[start - 1])
        invariant
            chars@ == line,
            start <= column <= chars@.len(),
            word_start(line, column as int) == word_start(line, start as int),
        decreases start,
    {
        start -= 1;
    }
    let mut end: usize = column;
    while end < chars.len() && !is_separator(chars[end])
        invariant
            chars@ == line,
            column <= end <= chars@.len(),
            word_end(line, column as int) == word_end(line, end as int),
        decreases chars@.len() - end,
    {
        end += 1;
    }
    if start == end {
        return None;
    }
    let ghost word = line.subrange(start as int, end as int);
    let mut i: usize = start;
    while i < end
        invariant
            chars@ == line,
            start <= i <= end <= chars@.len(),
            word_at(text@, position) == (if forall|k: int|
                0 <= k < word.len() ==> name_char(#[trigger] word[k]) {
                Some((word, start as u32, end as u32))
            } else {
                None
            }),
            word == line.subrange(start as int, end as int),
            forall|k: int|
                0 <= k < i - start ==> name_char(#[trigger] word[k]) && !whitespace(word[k]),
        decreases end - i,
    {
        let c = chars[i];
        assert(word[i - start] == c);
        if !(c.is_alphanumeric() || c == '_' || c == '-') {
            assert(!name_char(word[i - start]));
            return None;
        }
        i += 1;
    }
    Some((text_between(&chars, start, end), start as u32, end as u32))
}

/// Whether only whitespace stands before a column of a line.
fn is_blank_before(line: &Vec<char>, column: usize) -> (yes: bool)
    requires
        column <= line@.len(),
    ensures
        yes == blank_before(line@, column as int),
{
    let mut i: usize = 0;
    while i < column
        invariant
            i <= column <= line@.len(),
            blank_before(line@, i as int),
        decreases column - i,
    {
        if !line[i].is_whitespace() {
            return false;
        }
        i += 1;
    }
    true
}

/// Returns true when the cursor is on the first word of the line (the directive
/// name position).
pub fn is_first_word_on_line(text: &str, position: Position) -> (yes: bool)
    ensures
        yes == first_word(text@, position),
{
    let start: u32 = match word_at_position(text, position) {
        Some((_, start, _)) => start,
        None => return false,
    };
    let all = split_lines(text);
    assert(all.deep_view().len() == all@.len());
    let line_index: usize = position.line as usize;
    assert(lines(text@)[line_index as int] == all@[line_index as int]@);
    let chars = chars_of(all[line_index].as_str());
    is_blank_before(&chars, start as usize)
}

/// Returns true where the name of a directive is, or would be, typed.
pub fn is_name_position(text: &str, position: Position) -> (yes: bool)
    ensures
        yes == name_position(text@, position),
{
    let all = split_lines(text);
    assert(all.deep_view().len() == all@.len());
    if position.line as u64 >= all.len() as u64 {
        return true;
    }
    let line_index: usize = position.line as usize;
    assert(lines(text@)[line_index as int] == all@[line_index as int]@);
    let chars = chars_of(all[line_index].as_str());
    let column: usize = if position.character as u64 <= chars.len() as u64 {
        position.character as usize
    } else {
        chars.len()
    };
    let mut start: usize = column;
    while start > 0 && !is_separator(chars[start - 1])
        invariant
            start <= column <= chars@.len(),
            word_start(chars@, column as int) == word_start(chars@, start as int),
        decreases start,
    {
        start -= 1;
    }
    is_blank_before(&chars, start)
}

} // verus!
