//! What is wrong with a configuration file, as the editor shows it.

use vstd::prelude::*;
use vstd::utf8::{decode_utf8, encode_utf8, is_char_boundary};

use crate::config::{
    parse_config, parse_outcome, parsed_config, Stmt, StmtView, SyntaxError, SyntaxErrorView,
};
use crate::directives::{ValidationDiagnostic, ValidationDiagnosticView, ValidationResult};
use crate::protocol::{Diagnostic, DiagnosticView, Position, Range, Severity};
use crate::text::{
    byte_length, chars_of, finishes_with, lines, same_text, split_lines, text_between,
};
use crate::unicode::whitespace;

verus! {

// ---------------------------------------------------------------------------
// While typing

/// A number counted from one, counted from zero instead.
pub open spec fn one_less(number: u32) -> u32 {
    if number == 0 {
        0
    } else {
        (number - 1) as u32
    }
}

/// The diagnostic for a file that cannot be parsed. It marks the column where the
/// parser stopped.
pub open spec fn syntax_diagnostic(error: SyntaxErrorView) -> DiagnosticView {
    let line = one_less(error.span.line as u32);
    let column = error.span.column as u32;
    DiagnosticView {
        range: Range {
            start: Position { line, character: one_less(column) },
            end: Position { line, character: column },
        },
        severity: Severity::Error,
        message: error.message,
        source: "ferronconf"@,
    }
}

/// The diagnostics for a file, by how it was parsed.
pub open spec fn diagnostics_after(parsed: Result<Seq<StmtView>, SyntaxErrorView>) -> Seq<
    DiagnosticView,
> {
    match parsed {
        Ok(_) => seq![],
        Err(error) => seq![syntax_diagnostic(error)],
    }
}

/// A file that parses has no diagnostic. One that does not has a single one: an error
/// with the parser's message, over the one column in which the parser stopped. Lines
/// and columns, counted from one by the parser, are counted from zero.
pub proof fn syntax_errors_are_marked_where_they_are(
    parsed: Result<Seq<StmtView>, SyntaxErrorView>,
)
    ensures
        parsed is Ok <==> diagnostics_after(parsed).len() == 0,
        parsed matches Err(error) ==> {
            let shown = diagnostics_after(parsed)[0];
            let start = shown.range.start;
            let end = shown.range.end;
            &&& diagnostics_after(parsed).len() == 1
            &&& start.line == end.line
            &&& end.character == error.span.column as u32
            &&& error.span.line as u32 > 0 ==> start.line + 1 == error.span.line as u32
            &&& error.span.line as u32 == 0 ==> start.line == 0
            &&& error.span.column as u32 > 0 ==> start.character + 1 == end.character
            &&& error.span.column as u32 == 0 ==> start.character == 0
            &&& shown.severity == Severity::Error
            &&& shown.message == error.message
            &&& shown.source == "ferronconf"@
        },
{
}

/// The diagnostics for a file that was parsed to `parsed`.
pub fn diagnostics_in(parsed: &Result<Vec<Stmt>, SyntaxError>) -> (diagnostics: Vec<Diagnostic>)
    ensures
        diagnostics.deep_view() == diagnostics_after(parse_outcome(*parsed)),
{
    let mut diagnostics: Vec<Diagnostic> = Vec::new();
    if let Err(error) = parsed {
        let line: u32 = (error.span.line as u32).saturating_sub(1);
        let column: u32 = error.span.column as u32;
        diagnostics.push(
            Diagnostic {
                range: Range {
                    start: Position { line, character: column.saturating_sub(1) },
                    end: Position { line, character: column },
                },
                severity: Severity::Error,
                message: error.message.clone(),
                source: "ferronconf".to_string(),
            },
        );
    }
    assert(diagnostics.deep_view() =~= diagnostics_after(parse_outcome(*parsed)));
    diagnostics
}

/// The diagnostics for the text of a file. There are some exactly where the text
/// does not parse.
pub fn publish_diagnostics_for_uri(text: &str) -> (diagnostics: Vec<Diagnostic>)
    ensures
        diagnostics.deep_view() == diagnostics_after(parsed_config(text@)),
        diagnostics@.len() == 0 <==> parsed_config(text@) is Ok,
{
    let diagnostics = diagnostics_in(&parse_config(text));
    assert(diagnostics@.len() == diagnostics.deep_view().len());
    diagnostics
}

// ---------------------------------------------------------------------------
// On save

/// Whether a file with the given name is a configuration file. A path without a
/// file name (`None`) is not.
pub open spec fn config_file_name(name: Option<Seq<char>>) -> bool {
    match name {
        Some(n) => n == "ferron.conf"@ || ".ferron"@.is_suffix_of(n)
            || ".ferron.conf"@.is_suffix_of(n),
        None => false,
    }
}

/// A configuration file is one with the name `ferron.conf`, or with any name in front
/// of `.ferron` or of `.ferron.conf`.
pub proof fn configuration_files_end_alike(stem: Seq<char>, name: Seq<char>)
    ensures
        config_file_name(Some("ferron.conf"@)),
        config_file_name(Some(stem + ".ferron"@)),
        config_file_name(Some(stem + ".ferron.conf"@)),
        config_file_name(Some(name)) ==> name == "ferron.conf"@ || (exists|front: Seq<char>|
            name == #[trigger] (front + ".ferron"@)) || (exists|front: Seq<char>|
            name == #[trigger] (front + ".ferron.conf"@)),
        !config_file_name(None),
{
    let short = ".ferron"@;
    let long = ".ferron.conf"@;
    assert(short.is_suffix_of(stem + short)) by {
        assert((stem + short).subrange(stem.len() as int, (stem + short).len() as int) =~= short);
    }
    assert(long.is_suffix_of(stem + long)) by {
        assert((stem + long).subrange(stem.len() as int, (stem + long).len() as int) =~= long);
    }
    if short.is_suffix_of(name) {
        let front = name.take(name.len() - short.len());
        assert(name =~= front + short);
    }
    if long.is_suffix_of(name) {
        let front = name.take(name.len() - long.len());
        assert(name =~= front + long);
    }
}

/// Whether a file with the given name is a configuration file. Some editors announce
/// that they saved other files too.
pub fn is_config_file(name: Option<&str>) -> (yes: bool)
    ensures
        yes == config_file_name(name.deep_view()),
{
    match name {
        Some(n) => same_text(n, "ferron.conf") || finishes_with(n, ".ferron") || finishes_with(
            n,
            ".ferron.conf",
        ),
        None => false,
    }
}

/// How bad a finding of the given kind is.
pub open spec fn severity_of(kind: Seq<char>) -> Severity {
    if kind == "Invalid configuration"@ {
        Severity::Error
    } else if kind == "Unknown directive"@ {
        Severity::Warning
    } else if kind == "Best practice violation"@ {
        Severity::Information
    } else {
        Severity::Warning
    }
}

/// Only an invalid configuration is an error, and only a violation of best practice a
/// mere information. All else is a warning.
pub proof fn kinds_decide_on_severity(kind: Seq<char>)
    ensures
        severity_of(kind) == Severity::Error <==> kind == "Invalid configuration"@,
        severity_of(kind) == Severity::Information <==> kind == "Best practice violation"@,
{
    reveal_strlit("Invalid configuration");
    reveal_strlit("Unknown directive");
    reveal_strlit("Best practice violation");
    assert("Invalid configuration"@.len() != "Unknown directive"@.len());
    assert("Best practice violation"@.len() != "Unknown directive"@.len());
    assert("Best practice violation"@.len() != "Invalid configuration"@.len());
}

/// How bad a finding of the given kind is.
pub fn severity(kind: &str) -> (level: Severity)
    ensures
        level == severity_of(kind@),
{
    if same_text(kind, "Invalid configuration") {
        Severity::Error
    } else if same_text(kind, "Unknown directive") {
        Severity::Warning
    } else if same_text(kind, "Best practice violation") {
        Severity::Information
    } else {
        Severity::Warning
    }
}

/// A line or column of a finding, counted from zero. One that is not known is taken
/// to be the first.
pub open spec fn found_at(number: Option<usize>) -> u32 {
    match number {
        Some(n) => if n == 0 {
            0
        } else {
            (n - 1) as u32
        },
        None => 0,
    }
}

/// A number counted from one is one more than the same counted from zero. One that is
/// missing, or zero already, is the first.
pub proof fn findings_are_counted_from_zero(number: usize)
    ensures
        number >= 1 ==> found_at(Some(number)) == (number - 1) as u32,
        found_at(Some(0)) == 0,
        found_at(None) == 0,
{
}

fn place_found(number: Option<usize>) -> (place: u32)
    ensures
        place == found_at(number),
{
    match number {
        Some(n) => n.saturating_sub(1) as u32,
        None => 0,
    }
}

/// The number of characters before the first whitespace, or of all where there is
/// none.
pub open spec fn whitespace_break(text: Seq<char>) -> nat
    decreases text.len(),
{
    if text.len() == 0 || whitespace(text[0]) {
        0
    } else {
        1 + whitespace_break(text.skip(1))
    }
}

/// Whether a finding at the given place can be marked in the text: the byte behind
/// the place does not cut a character in two.
pub open spec fn markable(text: Seq<char>, line: u32, column: u32) -> bool {
    line < lines(text).len() ==> {
        let bytes = encode_utf8(lines(text)[line as int]);
        &&& column < u32::MAX
        &&& column + 1 < bytes.len() ==> is_char_boundary(bytes, column + 1)
    }
}

/// Where the mark of a finding ends: at the first whitespace behind its place, or at
/// the end of the line. Columns are counted in bytes.
pub open spec fn mark_end(text: Seq<char>, line: u32, column: u32) -> u32 {
    if line < lines(text).len() {
        let bytes = encode_utf8(lines(text)[line as int]);
        let start = column + 1;
        if start >= bytes.len() {
            bytes.len() as u32
        } else {
            let tail = decode_utf8(bytes.skip(start));
            if whitespace_break(tail) < tail.len() {
                (start + encode_utf8(tail.take(whitespace_break(tail) as int)).len()) as u32
            } else {
                bytes.len() as u32
            }
        }
    } else {
        1
    }
}

proof fn lemma_whitespace_break(text: Seq<char>, at: int)
    requires
        0 <= at <= text.len(),
        forall|k: int| 0 <= k < at ==> !whitespace(#[trigger] text[k]),
        at < text.len() ==> whitespace(text[at]),
    ensures
        whitespace_break(text) == at,
    decreases text.len(),
{
    if at > 0 {
        assert(!whitespace(text[0]));
        assert forall|k: int| 0 <= k < at - 1 implies !whitespace(#[trigger] text.skip(1)[k]) by {
            assert(text.skip(1)[k] == text[k + 1]);
        }
        lemma_whitespace_break(text.skip(1), at - 1);
    }
}

proof fn lemma_encode_concat(front: Seq<char>, back: Seq<char>)
    ensures
        encode_utf8(front + back) == encode_utf8(front) + encode_utf8(back),
    decreases front.len(),
{
    if front.len() == 0 {
        assert(front + back =~= back);
        assert(encode_utf8(front) + encode_utf8(back) =~= encode_utf8(back));
    } else {
        assert((front + back).drop_first() =~= front.drop_first() + back);
        lemma_encode_concat(front.drop_first(), back);
        assert(encode_utf8(front + back) =~= encode_utf8(front) + encode_utf8(back));
    }
}

proof fn lemma_encode_length(text: Seq<char>)
    ensures
        text.len() <= encode_utf8(text).len(),
    decreases text.len(),
{
    if text.len() > 0 {
        lemma_encode_length(text.drop_first());
        vstd::utf8::char_is_scalar(text[0]);
    }
}

/// Before which byte each character of a line begins, in order.
proof fn lemma_encode_take(line: Seq<char>, i: int, j: int)
    requires
        0 <= i <= j <= line.len(),
    ensures
        encode_utf8(line.take(j)).len() == encode_utf8(line.take(i)).len() + encode_utf8(
            line.subrange(i, j),
        ).len(),
        i < j ==> encode_utf8(line.take(i)).len() < encode_utf8(line.take(j)).len(),
{
    assert(line.take(j) =~= line.take(i) + line.subrange(i, j));
    lemma_encode_concat(line.take(i), line.subrange(i, j));
    lemma_encode_length(line.subrange(i, j));
}

/// Between the byte where a character begins and the end of the line lies what the
/// characters from that one on are encoded as.
proof fn lemma_boundary(line: Seq<char>, byte: int) -> (at: int)
    requires
        0 <= byte <= encode_utf8(line).len(),
        is_char_boundary(encode_utf8(line), byte),
    ensures
        0 <= at <= line.len(),
        encode_utf8(line.take(at)).len() == byte,
        decode_utf8(encode_utf8(line).skip(byte)) == line.skip(at),
{
    let bytes = encode_utf8(line);
    let head = bytes.subrange(0, byte);
    let tail = bytes.subrange(byte, bytes.len() as int);
    vstd::utf8::encode_utf8_valid_utf8(line);
    vstd::utf8::encode_utf8_decode_utf8(line);
    vstd::utf8::valid_utf8_split(bytes, byte);
    vstd::utf8::decode_utf8_split(bytes, byte);
    vstd::utf8::decode_utf8_encode_utf8(head);
    let at = decode_utf8(head).len() as int;
    assert(line == decode_utf8(head) + decode_utf8(tail));
    assert(line.take(at) =~= decode_utf8(head));
    assert(line.skip(at) =~= decode_utf8(tail));
    assert(bytes.skip(byte) =~= tail);
    at
}

proof fn lemma_whitespace_break_bounds(text: Seq<char>)
    ensures
        whitespace_break(text) <= text.len(),
        whitespace_break(text) < text.len() ==> whitespace(text[whitespace_break(text) as int]),
        forall|k: int| 0 <= k < whitespace_break(text) ==> !whitespace(#[trigger] text[k]),
    decreases text.len(),
{
    if text.len() > 0 && !whitespace(text[0]) {
        let rest = text.skip(1);
        lemma_whitespace_break_bounds(rest);
        assert forall|k: int| 0 <= k < whitespace_break(text) implies !whitespace(
            #[trigger] text[k],
        ) by {
            if k > 0 {
                assert(rest[k - 1] == text[k]);
            }
        }
    }
}

/// A mark ends before the first whitespace behind the place of the finding, or at the
/// end of the line: it ends where a character begins that is whitespace, or with the
/// line, and no character in it that begins behind the place is whitespace. On a line
/// that the text does not have, it ends in the first column.
pub proof fn marks_end_at_the_first_whitespace(text: Seq<char>, line: u32, column: u32)
    requires
        markable(text, line, column),
    ensures
        line >= lines(text).len() ==> mark_end(text, line, column) == 1,
        line < lines(text).len() ==> {
            let content = lines(text)[line as int];
            exists|at: int|
                {
                    &&& 0 <= at <= content.len()
                    &&& mark_end(text, line, column) == encode_utf8(
                        #[trigger] content.take(at),
                    ).len() as u32
                    &&& at == content.len() || (whitespace(content[at]) && encode_utf8(
                        content.take(at),
                    ).len() > column)
                    &&& forall|k: int|
                        0 <= k < at && encode_utf8(#[trigger] content.take(k)).len() > column
                            ==> !whitespace(content[k])
                }
        },
{
    if line < lines(text).len() {
        let content = lines(text)[line as int];
        let bytes = encode_utf8(content);
        let start = column + 1;
        let length = content.len() as int;
        assert(content.take(length) =~= content);
        if start >= bytes.len() {
            assert forall|k: int|
                0 <= k < length && encode_utf8(#[trigger] content.take(k)).len()
                    > column implies !whitespace(content[k]) by {
                lemma_encode_take(content, k, length);
            }
            assert(mark_end(text, line, column) == encode_utf8(content.take(length)).len() as u32);
        } else {
            let first = lemma_boundary(content, start);
            let tail = content.skip(first);
            lemma_whitespace_break_bounds(tail);
            let at = first + whitespace_break(tail);
            lemma_encode_take(content, first, at);
            lemma_encode_take(content, at, length);
            assert(content.subrange(first, at) =~= tail.take(whitespace_break(tail) as int));
            assert forall|k: int|
                0 <= k < at && encode_utf8(#[trigger] content.take(k)).len()
                    > column implies !whitespace(content[k]) by {
                if k < first {
                    lemma_encode_take(content, k, first);
                } else {
                    assert(content[k] == tail[k - first]);
                }
            }
            if at < length {
                assert(content[at] == tail[at - first]);
            }
            assert(mark_end(text, line, column) == encode_utf8(content.take(at)).len() as u32);
        }
    }
}

/// A finding can be marked exactly if a character of its line begins behind the byte
/// it is at, or the line goes no further, or there is no such line. A place that has
/// none behind it can not.
pub proof fn marks_begin_between_characters(text: Seq<char>, line: u32, column: u32)
    ensures
        line >= lines(text).len() ==> markable(text, line, column),
        line < lines(text).len() ==> {
            let content = lines(text)[line as int];
            markable(text, line, column) <==> column < u32::MAX && (encode_utf8(content).len()
                <= column + 1 || exists|at: int|
                0 <= at < content.len() && encode_utf8(#[trigger] content.take(at)).len() == column
                    + 1)
        },
{
    if line < lines(text).len() {
        let content = lines(text)[line as int];
        let bytes = encode_utf8(content);
        let byte = column + 1;
        if byte < bytes.len() {
            if is_char_boundary(bytes, byte) {
                let at = lemma_boundary(content, byte);
                assert(content.take(content.len() as int) =~= content);
                assert(encode_utf8(content.take(at)).len() == byte);
            }
            if exists|at: int|
                0 <= at < content.len() && encode_utf8(#[trigger] content.take(at)).len() == byte {
                let at = choose|at: int|
                    0 <= at < content.len() && encode_utf8(#[trigger] content.take(at)).len()
                        == byte;
                lemma_ends_are_boundaries(content.take(at), content.skip(at));
                assert(content.take(at) + content.skip(at) =~= content);
            }
        }
    }
}

proof fn lemma_ends_are_boundaries(front: Seq<char>, back: Seq<char>)
    ensures
        is_char_boundary(encode_utf8(front + back), encode_utf8(front).len() as int),
    decreases front.len(),
{
    let bytes = encode_utf8(front + back);
    vstd::utf8::encode_utf8_valid_utf8(front + back);
    if front.len() == 0 {
        vstd::utf8::is_char_boundary_start_end_of_seq(bytes);
    } else {
        let rest = front.drop_first();
        assert((front + back).drop_first() =~= rest + back);
        lemma_ends_are_boundaries(rest, back);
        lemma_encode_concat(front, back);
        vstd::utf8::encode_utf8_first_scalar(front + back);
        assert((front + back)[0] == front[0]);
        assert(vstd::utf8::pop_first_scalar(bytes) =~= encode_utf8(rest + back));
    }
}

/// Whether a finding at the given place can be marked in the text.
pub fn can_mark(text: &str, line: u32, column: u32) -> (yes: bool)
    ensures
        yes == markable(text@, line, column),
{
    let all = split_lines(text);
    assert(all.deep_view().len() == all@.len());
    if line as u64 >= all.len() as u64 {
        return true;
    }
    let index: usize = line as usize;
    assert(lines(text@)[index as int] == all@[index as int]@);
    if column == u32::MAX {
        return false;
    }
    let start: usize = (column + 1) as usize;
    let content = all[index].as_str();
    start >= byte_length(content) || content.is_char_boundary(start)
}

/// Where the mark of a finding ends.
pub fn end_column(text: &str, line: u32, column: u32) -> (end: u32)
    requires
        markable(text@, line, column),
    ensures
        end == mark_end(text@, line, column),
{
    let all = split_lines(text);
    assert(all.deep_view().len() == all@.len());
    if line as u64 >= all.len() as u64 {
        return 1;
    }
    let index: usize = line as usize;
    assert(lines(text@)[index as int] == all@[index as int]@);
    let content = all[index].as_str();
    let ghost bytes = encode_utf8(content@);
    let length: usize = byte_length(content);
    let start: usize = (column + 1) as usize;
    if start >= length {
        return length as u32;
    }
    let (_, tail) = content.split_at(start);
    proof {
        assert(bytes.subrange(start as int, bytes.len() as int) =~= bytes.skip(start as int));
        vstd::utf8::encode_utf8_decode_utf8(tail@);
    }
    assert(tail@ == decode_utf8(bytes.skip(start as int)));
    let chars = chars_of(tail);
    let mut i: usize = 0;
    while i < chars.len() && !chars[i].is_whitespace()
        invariant
            i <= chars@.len(),
            forall|k: int| 0 <= k < i ==> !whitespace(#[trigger] chars@[k]),
        decreases chars@.len() - i,
    {
        i += 1;
    }
    proof {
        lemma_whitespace_break(chars@, i as int);
    }
    if i < chars.len() {
        let skipped = text_between(&chars, 0, i);
        assert(skipped@ =~= tail@.take(i as int));
        (start as u128 + byte_length(skipped.as_str()) as u128) as u32
    } else {
        length as u32
    }
}

/// The diagnostic for a finding of the doctor in the file with the given text.
pub open spec fn doctor_diagnostic(finding: ValidationDiagnosticView, text: Seq<char>) -> DiagnosticView {
    let line = found_at(finding.line);
    let column = found_at(finding.column);
    DiagnosticView {
        range: Range {
            start: Position { line, character: column },
            end: Position { line, character: mark_end(text, line, column) },
        },
        severity: severity_of(finding.kind),
        message: finding.message,
        source: "ferron doctor"@,
    }
}

/// What the editor shows of a finding says what the doctor said, begins at the place
/// the doctor named and stays on that line.
pub proof fn findings_are_shown_where_they_are(finding: ValidationDiagnosticView, text: Seq<char>)
    ensures
        ({
            let shown = doctor_diagnostic(finding, text);
            let start = shown.range.start;
            &&& start.line == found_at(finding.line)
            &&& start.character == found_at(finding.column)
            &&& shown.range.end.line == start.line
            &&& shown.range.end.character == mark_end(text, start.line, start.character)
            &&& shown.severity == severity_of(finding.kind)
            &&& shown.message == finding.message
            &&& shown.source == "ferron doctor"@
        }),
{
}

/// Whether all findings can be marked in the text.
pub open spec fn all_markable(findings: Seq<ValidationDiagnostic>, text: Seq<char>) -> bool {
    forall|k: int|
        0 <= k < findings.len() ==> markable(
            text,
            found_at((#[trigger] findings[k]).line),
            found_at(findings[k].column),
        )
}

/// Whether all findings of the doctor can be marked in the text.
pub fn can_mark_all(result: &ValidationResult, text: &str) -> (yes: bool)
    ensures
        yes == all_markable(result.diagnostics@, text@),
{
    let mut i: usize = 0;
    while i < result.diagnostics.len()
        invariant
            i <= result.diagnostics@.len(),
            forall|k: int|
                0 <= k < i ==> markable(
                    text@,
                    found_at((#[trigger] result.diagnostics@[k]).line),
                    found_at(result.diagnostics@[k].column),
                ),
        decreases result.diagnostics@.len() - i,
    {
        let d = &result.diagnostics[i];
        if !can_mark(text, place_found(d.line), place_found(d.column)) {
            return false;
        }
        i += 1;
    }
    true
}

/// The diagnostics for what the doctor found in the file with the given text.
pub fn doctor_diagnostics(result: &ValidationResult, text: &str) -> (diagnostics: Vec<Diagnostic>)
    requires
        all_markable(result.diagnostics@, text@),
    ensures
        diagnostics.deep_view() == result.diagnostics.deep_view().map_values(
            |finding: ValidationDiagnosticView| doctor_diagnostic(finding, text@),
        ),
        diagnostics@.len() == result.diagnostics@.len(),
        forall|k: int|
            0 <= k < result.diagnostics@.len() ==> (#[trigger] diagnostics@[k])@
                == doctor_diagnostic(result.diagnostics@[k]@, text@),
{
    let mut diagnostics: Vec<Diagnostic> = Vec::new();
    let mut i: usize = 0;
    while i < result.diagnostics.len()
        invariant
            all_markable(result.diagnostics@, text@),
            i <= result.diagnostics@.len(),
            diagnostics@.len() == i,
            forall|k: int|
                0 <= k < i ==> (#[trigger] diagnostics@[k])@ == doctor_diagnostic(
                    result.diagnostics@[k]@,
                    text@,
                ),
        decreases result.diagnostics@.len() - i,
    {
        let d = &result.diagnostics[i];
        let line: u32 = place_found(d.line);
        let column: u32 = place_found(d.column);
        diagnostics.push(
            Diagnostic {
                range: Range {
                    start: Position { line, character: column },
                    end: Position { line, character: end_column(text, line, column) },
                },
                severity: severity(d.kind.as_str()),
                message: d.message.clone(),
                source: "ferron doctor".to_string(),
            },
        );
        i += 1;
    }
    assert(diagnostics.deep_view() =~= result.diagnostics.deep_view().map_values(
        |finding: ValidationDiagnosticView| doctor_diagnostic(finding, text@),
    ));
    diagnostics
}

} // verus!
