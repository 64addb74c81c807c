//! Text as the language server looks at it: characters, lines, words, prefixes.
//!
//! The model of a text is the sequence of its characters.

use vstd::prelude::*;
use vstd::utf8::encode_utf8;

use crate::unicode::whitespace;

verus! {

/// The characters of a text.
pub fn chars_of(text: &str) -> (chars: Vec<char>)
    ensures
        chars@ == text@,
{
    let mut chars: Vec<char> = Vec::new();
    for c in it: text.chars()
        invariant
            it.seq() == text@,
            chars@ == it.seq().take(it.index()),
    {
        chars.push(c);
    }
    chars
}

/// The text that the characters from `start` up to `end` spell.
pub fn text_between(chars: &Vec<char>, start: usize, end: usize) -> (text: String)
    requires
        start <= end <= chars@.len(),
    ensures
        text@ == chars@.subrange(start as int, end as int),
{
    let mut text = String::new();
    let mut i: usize = start;
    while i < end
        invariant
            start <= i <= end <= chars@.len(),
            text@ == chars@.subrange(start as int, i as int),
        decreases end - i,
    {
        text.push(chars[i]);
        i += 1;
        assert(text@ =~= chars@.subrange(start as int, i as int));
    }
    text
}

/// Whether two texts are the same.
pub fn same_text(a: &str, b: &str) -> (same: bool)
    ensures
        same == (a@ == b@),
{
    let x = a.as_bytes();
    let y = b.as_bytes();
    if x.len() != y.len() {
        return false;
    }
    let mut i: usize = 0;
    while i < x.len()
        invariant
            x@ == encode_utf8(a@),
            y@ == encode_utf8(b@),
            x@.len() == y@.len(),
            i <= x@.len(),
            forall|k: int| 0 <= k < i ==> x@[k] == y@[k],
        decreases x@.len() - i,
    {
        if x[i] != y[i] {
            return false;
        }
        i += 1;
    }
    proof {
        assert(x@ =~= y@);
        vstd::utf8::encode_utf8_decode_utf8(a@);
        vstd::utf8::encode_utf8_decode_utf8(b@);
    }
    true
}

/// Whether `text` begins with `prefix`.
pub fn begins_with(text: &str, prefix: &str) -> (yes: bool)
    ensures
        yes == prefix@.is_prefix_of(text@),
{
    let all = chars_of(text);
    let part = chars_of(prefix);
    if part.len() > all.len() {
        return false;
    }
    let mut i: usize = 0;
    while i < part.len()
        invariant
            all@ == text@,
            part@ == prefix@,
            part@.len() <= all@.len(),
            i <= part@.len(),
            forall|k: int| 0 <= k < i ==> part@[k] == all@[k],
        decreases part@.len() - i,
    {
        if part[i] != all[i] {
            assert(prefix@[i as int] != text@.subrange(0, prefix@.len() as int)[i as int]);
            return false;
        }
        i += 1;
    }
    assert(prefix@ =~= text@.subrange(0, prefix@.len() as int));
    true
}

/// Whether `text` ends with `suffix`.
pub fn finishes_with(text: &str, suffix: &str) -> (yes: bool)
    ensures
        yes == suffix@.is_suffix_of(text@),
{
    let all = chars_of(text);
    let part = chars_of(suffix);
    if part.len() > all.len() {
        return false;
    }
    let skipped: usize = all.len() - part.len();
    let mut i: usize = 0;
    while i < part.len()
        invariant
            all@ == text@,
            part@ == suffix@,
            part@.len() <= all@.len(),
            skipped == all@.len() - part@.len(),
            all@.len() <= usize::MAX,
            i <= part@.len(),
            forall|k: int| 0 <= k < i ==> part@[k] == all@[skipped + k],
        decreases part@.len() - i,
    {
        if part[i] != all[skipped + i] {
            assert(suffix@[i as int] != text@.subrange(
                (text@.len() - suffix@.len()) as int,
                text@.len() as int,
            )[i as int]);
            return false;
        }
        i += 1;
    }
    assert(suffix@ =~= text@.subrange((text@.len() - suffix@.len()) as int, text@.len() as int));
    true
}

/// The number of bytes that a text takes in UTF-8.
pub fn byte_length(text: &str) -> (length: usize)
    ensures
        length == encode_utf8(text@).len(),
{
    text.as_bytes().len()
}

// ---------------------------------------------------------------------------
// Lines

/// The number of characters before the first line feed, or of all characters
/// where there is none.
pub open spec fn line_break(text: Seq<char>) -> nat
    decreases text.len(),
{
    if text.len() == 0 || text[0] == '\n' {
        0
    } else {
        1 + line_break(text.skip(1))
    }
}

/// A line without the carriage return that a line feed followed.
pub open spec fn without_return(line: Seq<char>) -> Seq<char> {
    if line.len() > 0 && line.last() == '\r' {
        line.drop_last()
    } else {
        line
    }
}

/// The lines of a text. A line ends at a line feed, which may follow a carriage
/// return; neither belongs to the line, and the last line needs neither.
pub open spec fn lines(text: Seq<char>) -> Seq<Seq<char>>
    decreases text.len(),
{
    if text.len() == 0 {
        seq![]
    } else if line_break(text) >= text.len() {
        seq![text]
    } else {
        seq![without_return(text.take(line_break(text) as int))] + lines(
            text.skip(line_break(text) as int + 1),
        )
    }
}

/// The number of characters in some lines.
pub open spec fn total_length(some: Seq<Seq<char>>) -> nat
    decreases some.len(),
{
    if some.len() == 0 {
        0
    } else {
        total_length(some.drop_last()) + some.last().len()
    }
}

proof fn lemma_line_break(text: Seq<char>, at: int)
    requires
        0 <= at <= text.len(),
        forall|k: int| 0 <= k < at ==> text[k] != '\n',
        at < text.len() ==> text[at] == '\n',
    ensures
        line_break(text) == at,
    decreases text.len(),
{
    if at > 0 {
        assert forall|k: int| 0 <= k < at - 1 implies text.skip(1)[k] != '\n' by {
            assert(text.skip(1)[k] == text[k + 1]);
        }
        lemma_line_break(text.skip(1), at - 1);
    }
}

proof fn lemma_total_length_front(first: Seq<char>, rest: Seq<Seq<char>>)
    ensures
        total_length(seq![first] + rest) == first.len() + total_length(rest),
    decreases rest.len(),
{
    let all = seq![first] + rest;
    if rest.len() == 0 {
        assert(all.drop_last() =~= Seq::<Seq<char>>::empty());
        assert(total_length(all.drop_last()) == 0);
    } else {
        assert(all.drop_last() =~= seq![first] + rest.drop_last());
        lemma_total_length_front(first, rest.drop_last());
    }
}

/// The lines of a text hold no more characters than the text.
pub(crate) proof fn lemma_lines_length(text: Seq<char>)
    ensures
        total_length(lines(text)) <= text.len(),
    decreases text.len(),
{
    if text.len() == 0 {
    } else if line_break(text) >= text.len() {
        let all = seq![text];
        assert(all.drop_last() =~= Seq::<Seq<char>>::empty());
        assert(total_length(all.drop_last()) == 0);
    } else {
        let at = line_break(text) as int;
        lemma_lines_length(text.skip(at + 1));
        lemma_total_length_front(without_return(text.take(at)), lines(text.skip(at + 1)));
    }
}

/// A line that ends with a line feed, perhaps behind a carriage return, comes before
/// the lines of what follows it. The last line of a text needs no such end, and a text
/// without characters has no line.
pub proof fn lines_follow_one_another(line: Seq<char>, rest: Seq<char>)
    requires
        !line.contains('\n'),
    ensures
        lines(line + seq!['\r', '\n'] + rest) == seq![line] + lines(rest),
        line.len() == 0 || line.last() != '\r' ==> lines(line + seq!['\n'] + rest) == seq![line]
            + lines(rest),
        line.len() > 0 ==> lines(line) == seq![line],
        lines(Seq::<char>::empty()).len() == 0,
{
    assert forall|k: int| 0 <= k < line.len() implies line[k] != '\n' by {
        assert(line.contains(line[k]));
    }
    let long = line + seq!['\r', '\n'] + rest;
    lemma_line_break(long, line.len() as int + 1);
    assert(long.take(line.len() as int + 1) =~= line.push('\r'));
    assert(line.push('\r').drop_last() =~= line);
    assert(long.skip(line.len() as int + 2) =~= rest);
    let short = line + seq!['\n'] + rest;
    lemma_line_break(short, line.len() as int);
    assert(short.take(line.len() as int) =~= line);
    assert(short.skip(line.len() as int + 1) =~= rest);
    lemma_line_break(line, line.len() as int);
}

/// The lines of a text.
pub fn split_lines(text: &str) -> (all: Vec<String>)
    ensures
        all.deep_view() == lines(text@),
{
    let chars = chars_of(text);
    let mut all: Vec<String> = Vec::new();
    let mut start: usize = 0;
    let mut i: usize = 0;
    assert(chars@.skip(0) =~= text@);
    assert(all.deep_view() + lines(chars@.skip(0)) =~= lines(text@));
    while i < chars.len()
        invariant
            chars@ == text@,
            start <= i <= chars@.len(),
            forall|k: int| start <= k < i ==> chars@[k] != '\n',
            all.deep_view() + lines(chars@.skip(start as int)) == lines(text@),
        decreases chars@.len() - i,
    {
        if chars[i] == '\n' {
            let end: usize = if i > start && chars[i - 1] == '\r' {
                i - 1
            } else {
                i
            };
            let line = text_between(&chars, start, end);
            let ghost before = all.deep_view();
            let ghost rest = chars@.skip(start as int);
            proof {
                assert forall|k: int| 0 <= k < i - start implies rest[k] != '\n' by {
                    assert(rest[k] == chars@[start + k]);
                }
                lemma_line_break(rest, i - start);
                assert(rest.take(i - start) =~= chars@.subrange(start as int, i as int));
                assert(without_return(rest.take(i - start)) =~= line@);
                assert(rest.skip(i - start + 1) =~= chars@.skip(i + 1));
            }
            all.push(line);
            assert(all.deep_view() =~= before.push(line@));
            assert(all.deep_view() + lines(chars@.skip(i + 1)) =~= before + (seq![line@] + lines(
                chars@.skip(i + 1),
            )));
            start = i + 1;
        }
        i += 1;
    }
    let ghost rest = chars@.skip(start as int);
    if start < chars.len() {
        let line = text_between(&chars, start, chars.len());
        let ghost before = all.deep_view();
        proof {
            assert forall|k: int| 0 <= k < rest.len() implies rest[k] != '\n' by {
                assert(rest[k] == chars@[start + k]);
            }
            lemma_line_break(rest, rest.len() as int);
            assert(line@ =~= rest);
        }
        all.push(line);
        assert(all.deep_view() =~= before + seq![rest]);
    } else {
        assert(lines(rest) =~= seq![]);
        assert(all.deep_view() =~= lines(text@));
    }
    all
}

// ---------------------------------------------------------------------------
// Trimming

/// A text without its leading whitespace.
pub open spec fn trim_start(text: Seq<char>) -> Seq<char>
    decreases text.len(),
{
    if text.len() > 0 && whitespace(text[0]) {
        trim_start(text.skip(1))
    } else {
        text
    }
}

/// A text without its trailing whitespace.
pub open spec fn trim_end(text: Seq<char>) -> Seq<char>
    decreases text.len(),
{
    if text.len() > 0 && whitespace(text.last()) {
        trim_end(text.drop_last())
    } else {
        text
    }
}

/// A text without the whitespace around it.
pub open spec fn trimmed(text: Seq<char>) -> Seq<char> {
    trim_end(trim_start(text))
}

/// What is left of a text when all whitespace around it is gone begins and ends with
/// what is no whitespace, or is nothing.
pub proof fn trimming_leaves_the_core(before: Seq<char>, core: Seq<char>, after: Seq<char>)
    requires
        forall|k: int| 0 <= k < before.len() ==> whitespace(#[trigger] before[k]),
        forall|k: int| 0 <= k < after.len() ==> whitespace(#[trigger] after[k]),
        core.len() > 0 ==> !whitespace(core[0]) && !whitespace(core.last()),
    ensures
        trimmed(before + core + after) == core,
    decreases before.len() + after.len(),
{
    let text = before + core + after;
    if before.len() > 0 {
        assert(text[0] == before[0]);
        assert(text.skip(1) =~= before.skip(1) + core + after);
        assert forall|k: int| 0 <= k < before.skip(1).len() implies whitespace(
            #[trigger] before.skip(1)[k],
        ) by {
            assert(before.skip(1)[k] == before[k + 1]);
        }
        trimming_leaves_the_core(before.skip(1), core, after);
    } else if core.len() == 0 {
        if after.len() > 0 {
            assert(text[0] == after[0]);
            assert(text.skip(1) =~= before + core + after.skip(1));
            assert forall|k: int| 0 <= k < after.skip(1).len() implies whitespace(
                #[trigger] after.skip(1)[k],
            ) by {
                assert(after.skip(1)[k] == after[k + 1]);
            }
            trimming_leaves_the_core(before, core, after.skip(1));
        } else {
            assert(text =~= core);
        }
    } else {
        assert(text[0] == core[0]);
        assert(trim_start(text) == text);
        if after.len() > 0 {
            let shorter = before + core + after.drop_last();
            assert(text.last() == after[after.len() - 1]);
            assert(text.drop_last() =~= shorter);
            assert(shorter[0] == core[0]);
            assert(trim_start(shorter) == shorter);
            trimming_leaves_the_core(before, core, after.drop_last());
        } else {
            assert(text =~= core);
        }
    }
}

/// A text without the whitespace around it.
pub fn trim(text: &str) -> (inner: String)
    ensures
        inner@ == trimmed(text@),
{
    let chars = chars_of(text);
    let mut start: usize = 0;
    assert(chars@.skip(0) =~= text@);
    while start < chars.len() && chars[start].is_whitespace()
        invariant
            chars@ == text@,
            start <= chars@.len(),
            trim_start(chars@.skip(start as int)) == trim_start(text@),
        decreases chars@.len() - start,
    {
        assert(chars@.skip(start as int).skip(1) =~= chars@.skip(start + 1));
        start += 1;
    }
    let ghost rest = chars@.skip(start as int);
    assert(trim_start(text@) == rest);
    let mut end: usize = chars.len();
    assert(chars@.subrange(start as int, end as int) =~= rest);
    while end > start && chars[end - 1].is_whitespace()
        invariant
            chars@ == text@,
            start <= end <= chars@.len(),
            rest == trim_start(text@),
            trim_end(chars@.subrange(start as int, end as int)) == trim_end(rest),
        decreases end,
    {
        assert(chars@.subrange(start as int, end as int).drop_last() =~= chars@.subrange(
            start as int,
            end - 1,
        ));
        end -= 1;
    }
    text_between(&chars, start, end)
}

// ---------------------------------------------------------------------------
// Composing

/// The texts one after the other, with `separator` between any two.
pub open spec fn joined(parts: Seq<Seq<char>>, separator: Seq<char>) -> Seq<char>
    decreases parts.len(),
{
    if parts.len() == 0 {
        seq![]
    } else if parts.len() == 1 {
        parts[0]
    } else {
        joined(parts.drop_last(), separator) + separator + parts.last()
    }
}

/// Joining two lists of texts is joining each, with the separator between them. A list
/// of one text is that text, and an empty list is nothing.
pub proof fn lists_are_joined_piece_by_piece(
    front: Seq<Seq<char>>,
    back: Seq<Seq<char>>,
    separator: Seq<char>,
)
    requires
        front.len() > 0,
        back.len() > 0,
    ensures
        joined(front + back, separator) == joined(front, separator) + separator + joined(
            back,
            separator,
        ),
        joined(seq![front[0]], separator) == front[0],
        joined(Seq::<Seq<char>>::empty(), separator).len() == 0,
    decreases back.len(),
{
    let all = front + back;
    assert(all.drop_last() =~= front + back.drop_last());
    assert(all.last() == back.last());
    if back.len() == 1 {
        assert(all.drop_last() =~= front);
    } else {
        lists_are_joined_piece_by_piece(front, back.drop_last(), separator);
        assert(joined(all, separator) =~= joined(front, separator) + separator + joined(
            back,
            separator,
        ));
    }
}

/// The texts one after the other, with `separator` between any two.
pub fn join(parts: &Vec<String>, separator: &str) -> (text: String)
    ensures
        text@ == joined(parts.deep_view(), separator@),
{
    let mut text = String::new();
    let mut i: usize = 0;
    while i < parts.len()
        invariant
            i <= parts@.len(),
            text@ == joined(parts.deep_view().take(i as int), separator@),
        decreases parts@.len() - i,
    {
        if i > 0 {
            text.append(separator);
        }
        text.append(parts[i].as_str());
        proof {
            let next = parts.deep_view().take(i + 1);
            assert(next.drop_last() =~= parts.deep_view().take(i as int));
            assert(next.last() == parts[i as int]@);
            if i == 0 {
                assert(text@ =~= next[0]);
            }
        }
        i += 1;
    }
    assert(parts.deep_view().take(parts@.len() as int) =~= parts.deep_view());
    text
}

/// The decimal digit for a number below ten.
pub open spec fn digit(value: nat) -> char {
    (48 + value) as char
}

/// A number in decimal notation, without leading zeros.
pub open spec fn decimal(value: nat) -> Seq<char>
    decreases value,
{
    if value < 10 {
        seq![digit(value)]
    } else {
        decimal(value / 10).push(digit(value % 10))
    }
}

/// The number that some decimal digits spell.
pub open spec fn spelled_number(digits: Seq<char>) -> int
    decreases digits.len(),
{
    if digits.len() == 0 {
        0
    } else {
        10 * spelled_number(digits.drop_last()) + (digits.last() as u32 - '0' as u32)
    }
}

/// Decimal notation has digits only, spells the number it was made from, and does not
/// begin with a zero unless it is one.
pub proof fn decimals_spell_their_number(value: nat)
    ensures
        spelled_number(decimal(value)) == value,
        forall|k: int| 0 <= k < decimal(value).len() ==> '0' <= #[trigger] decimal(value)[k] <= '9',
        decimal(value).len() > 0,
        decimal(value)[0] == '0' ==> decimal(value).len() == 1,
        decimal(value).len() == 1 <==> value < 10,
    decreases value,
{
    let text = decimal(value);
    if value < 10 {
        assert(text.drop_last() =~= Seq::<char>::empty());
        assert(spelled_number(text.drop_last()) == 0);
        assert(text.last() == digit(value));
    } else {
        decimals_spell_their_number(value / 10);
        assert(text.drop_last() =~= decimal(value / 10));
        assert(text.last() == digit(value % 10));
        assert(text[0] == decimal(value / 10)[0]);
        assert(decimal(value / 10) =~= seq![digit(value / 10)] || value / 10 >= 10);
        assert(text[0] == '0' ==> value / 10 == 0);
    }
}

/// A number in decimal notation, without leading zeros.
pub fn decimal_text(value: u32) -> (text: String)
    ensures
        text@ == decimal(value as nat),
    decreases value,
{
    let last: u8 = (value % 10) as u8;
    let mut text = if value < 10 {
        String::new()
    } else {
        decimal_text(value / 10)
    };
    text.push((48u8 + last) as char);
    assert(text@ =~= decimal(value as nat));
    text
}

} // verus!
