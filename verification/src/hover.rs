//! What to show of the directive under the cursor.

use vstd::prelude::*;

use crate::config::{
    parse_config, parse_outcome, parsed_config, Stmt, StmtView, SyntaxError, SyntaxErrorView,
};
use crate::context::{
    context_after, context_of, directives_are_found_in_the_section_of_the_block, entry_in_context,
    lookup_entry_in_context, ContextView,
};
use crate::cursor::{first_word, is_first_word_on_line, word_at, word_at_position};
use crate::directives::{DirectiveEntry, DirectiveRegistry, EntryView, SectionView};
use crate::protocol::{Hover, HoverView, Position, Range};
use crate::text::{join, joined};

verus! {

/// The paragraph that names the protocols of a directive.
pub open spec fn protocols_paragraph(entry: EntryView) -> Seq<char> {
    match entry.applicable_protocols {
        Some(protocols) => "**Protocols:** "@ + joined(protocols, ", "@) + "\n"@,
        None => seq![],
    }
}

/// The paragraph that says where a directive may stand.
pub open spec fn scope_paragraph(entry: EntryView) -> Seq<char> {
    if entry.global_only {
        "**Scope:** global only\n"@
    } else {
        seq![]
    }
}

/// The paragraph that names the section of a directive's block.
pub open spec fn subblock_paragraph(entry: EntryView) -> Seq<char> {
    match entry.subblock_link {
        Some(section) => "**Subblock:** `"@ + section + "`\n"@,
        None => seq![],
    }
}

/// A directive, described in Markdown.
pub open spec fn described(entry: EntryView) -> Seq<char> {
    "**`"@ + entry.name + "`**\n\n"@ + entry.description + "\n\n---\n\n"@ + "**Usage:** `"@
        + entry.usage + "`\n\n"@ + protocols_paragraph(entry) + scope_paragraph(entry)
        + subblock_paragraph(entry)
}

/// A description names the directive, and gives its own description and its usage.
/// Behind these it says what protocols the directive is for, that it stands in global
/// blocks only, and which section its block takes directives from, each where the
/// directive has it, and nothing else.
pub proof fn descriptions_say_what_entries_hold(entry: EntryView)
    ensures
        ({
            let plain = EntryView {
                applicable_protocols: None,
                global_only: false,
                subblock_link: None,
                ..entry
            };
            let for_protocols = EntryView { global_only: false, subblock_link: None, ..entry };
            let unlinked = EntryView { subblock_link: None, ..entry };
            &&& described(plain) == "**`"@ + entry.name + "`**\n\n"@ + entry.description
                + "\n\n---\n\n**Usage:** `"@ + entry.usage + "`\n\n"@
            &&& described(for_protocols) == match entry.applicable_protocols {
                Some(protocols) => described(plain) + "**Protocols:** "@ + joined(protocols, ", "@)
                    + "\n"@,
                None => described(plain),
            }
            &&& described(unlinked) == if entry.global_only {
                described(for_protocols) + "**Scope:** global only\n"@
            } else {
                described(for_protocols)
            }
            &&& described(entry) == match entry.subblock_link {
                Some(section) => described(unlinked) + "**Subblock:** `"@ + section + "`\n"@,
                None => described(unlinked),
            }
        }),
{
    let plain = EntryView {
        applicable_protocols: None,
        global_only: false,
        subblock_link: None,
        ..entry
    };
    let for_protocols = EntryView { global_only: false, subblock_link: None, ..entry };
    let unlinked = EntryView { subblock_link: None, ..entry };
    reveal_strlit("\n\n---\n\n");
    reveal_strlit("**Usage:** `");
    reveal_strlit("\n\n---\n\n**Usage:** `");
    assert("\n\n---\n\n**Usage:** `"@ =~= "\n\n---\n\n"@ + "**Usage:** `"@);
    assert(described(plain) =~= "**`"@ + entry.name + "`**\n\n"@ + entry.description
        + "\n\n---\n\n**Usage:** `"@ + entry.usage + "`\n\n"@);
    assert(described(for_protocols) =~= described(plain) + protocols_paragraph(entry));
    assert(described(for_protocols) =~= match entry.applicable_protocols {
        Some(protocols) => described(plain) + "**Protocols:** "@ + joined(protocols, ", "@) + "\n"@,
        None => described(plain),
    });
    assert(described(unlinked) =~= described(for_protocols) + scope_paragraph(entry));
    assert(described(unlinked) =~= if entry.global_only {
        described(for_protocols) + "**Scope:** global only\n"@
    } else {
        described(for_protocols)
    });
    assert(described(entry) =~= match entry.subblock_link {
        Some(section) => described(unlinked) + "**Subblock:** `"@ + section + "`\n"@,
        None => described(unlinked),
    });
}

/// Describes a directive in Markdown.
pub fn describe(entry: &DirectiveEntry) -> (markdown: String)
    ensures
        markdown@ == described(entry@),
{
    let mut markdown = String::new();
    markdown.append("**`");
    markdown.append(entry.name.as_str());
    markdown.append("`**\n\n");
    markdown.append(entry.description.as_str());
    markdown.append("\n\n---\n\n");
    markdown.append("**Usage:** `");
    markdown.append(entry.usage.as_str());
    markdown.append("`\n\n");
    let ghost head = markdown@;
    assert(head =~= "**`"@ + entry.name@ + "`**\n\n"@ + entry.description@ + "\n\n---\n\n"@
        + "**Usage:** `"@ + entry.usage@ + "`\n\n"@);
    if let Some(protocols) = &entry.applicable_protocols {
        markdown.append("**Protocols:** ");
        markdown.append(join(protocols, ", ").as_str());
        markdown.append("\n");
    }
    assert(markdown@ =~= head + protocols_paragraph(entry@));
    if entry.global_only {
        markdown.append("**Scope:** global only\n");
    }
    assert(markdown@ =~= head + protocols_paragraph(entry@) + scope_paragraph(entry@));
    if let Some(section) = &entry.subblock_link {
        markdown.append("**Subblock:** `");
        markdown.append(section.as_str());
        markdown.append("`\n");
    }
    assert(markdown@ =~= described(entry@));
    markdown
}

/// What to show for the cursor in a file, by how the file was parsed: the
/// description of the directive whose name the cursor is on, where the name is the
/// first word of its line and the directive may stand in the block around it.
pub open spec fn hover_after(
    parsed: Result<Seq<StmtView>, SyntaxErrorView>,
    text: Seq<char>,
    position: Position,
    sections: Seq<SectionView>,
) -> Option<HoverView> {
    match word_at(text, position) {
        Some((word, start, end)) => {
            if first_word(text, position) {
                match entry_in_context(
                    word,
                    context_after(parsed, text, position, sections),
                    sections,
                ) {
                    Some(entry) => Some(
                        HoverView {
                            markdown: described(entry),
                            range: Range {
                                start: Position { line: position.line, character: start },
                                end: Position { line: position.line, character: end },
                            },
                        },
                    ),
                    None => None,
                }
            } else {
                None
            }
        },
        None => None,
    }
}

/// What to show for the cursor in a file that was parsed to `parsed`.
pub fn hover_in(
    parsed: &Result<Vec<Stmt>, SyntaxError>,
    text: &str,
    position: Position,
    registry: &DirectiveRegistry,
) -> (shown: Option<Hover>)
    ensures
        shown.deep_view() == hover_after(parse_outcome(*parsed), text@, position, registry@),
{
    let (word, start, end) = match word_at_position(text, position) {
        Some(found) => found,
        None => return None,
    };
    if !is_first_word_on_line(text, position) {
        return None;
    }
    let context = context_of(parsed, text, position, registry);
    match lookup_entry_in_context(word.as_str(), &context, registry) {
        Some(entry) => Some(
            Hover {
                markdown: describe(&entry),
                range: Range {
                    start: Position { line: position.line, character: start },
                    end: Position { line: position.line, character: end },
                },
            },
        ),
        None => None,
    }
}

/// What to show for the cursor in a file.
pub fn hover(text: &str, position: Position, registry: &DirectiveRegistry) -> (shown: Option<Hover>)
    ensures
        shown.deep_view() == hover_after(parsed_config(text@), text@, position, registry@),
{
    if !is_first_word_on_line(text, position) {
        return None;
    }
    hover_in(&parse_config(text), text, position, registry)
}

/// Only names of directives are described: where something is shown, the cursor is
/// on the first word of its line, and that word is the range for which it is shown.
pub proof fn only_first_words_are_described(
    parsed: Result<Seq<StmtView>, SyntaxErrorView>,
    text: Seq<char>,
    position: Position,
    sections: Seq<SectionView>,
)
    ensures
        hover_after(parsed, text, position, sections) matches Some(shown) ==> {
            &&& first_word(text, position)
            &&& word_at(text, position) matches Some((_, start, end))
            &&& shown.range.start == (Position { line: position.line, character: start })
            &&& shown.range.end == (Position { line: position.line, character: end })
        },
{
}

/// Something is shown exactly if the cursor is on the first word of its line and a
/// directive with that name may stand in the context of the cursor, whatever the
/// context. What is shown is the description of that directive, for just that word.
pub proof fn directives_are_described_in_every_context(
    parsed: Result<Seq<StmtView>, SyntaxErrorView>,
    text: Seq<char>,
    position: Position,
    sections: Seq<SectionView>,
    word: Seq<char>,
    start: u32,
    end: u32,
)
    requires
        word_at(text, position) == Some((word, start, end)),
    ensures
        ({
            let context = context_after(parsed, text, position, sections);
            let shown = hover_after(parsed, text, position, sections);
            &&& shown is Some <==> first_word(text, position) && entry_in_context(
                word,
                context,
                sections,
            ) is Some
            &&& shown matches Some(hover) ==> {
                &&& entry_in_context(word, context, sections) matches Some(entry)
                &&& hover.markdown == described(entry)
                &&& hover.range.start.line == position.line
                &&& hover.range.start.character == start
                &&& hover.range.end.line == position.line
                &&& hover.range.end.character == end
            }
        }),
{
}

/// The name of a directive, where it is the first word of a line in a global block, a
/// host block or the block of a directive, shows the first directive with that name in
/// the section that the block takes its directives from. Where the section has none,
/// nothing is shown.
pub proof fn directives_of_a_block_are_described(
    parsed: Result<Seq<StmtView>, SyntaxErrorView>,
    text: Seq<char>,
    position: Position,
    sections: Seq<SectionView>,
    word: Seq<char>,
    start: u32,
    end: u32,
    section: Seq<char>,
    at: int,
    k: int,
)
    requires
        word_at(text, position) == Some((word, start, end)),
        first_word(text, position),
        match context_after(parsed, text, position, sections) {
            ContextView::GlobalBlock => section == "default"@,
            ContextView::HostBlock { .. } => section == "default"@,
            ContextView::DirectiveBlock { subblock_link, .. } => subblock_link == Some(section),
            _ => false,
        },
        0 <= at < sections.len(),
        sections[at].name == section,
        forall|j: int| 0 <= j < at ==> (#[trigger] sections[j]).name != section,
        0 <= k <= sections[at].entries.len(),
        forall|j: int| 0 <= j < k ==> (#[trigger] sections[at].entries[j]).name != word,
        k < sections[at].entries.len() ==> sections[at].entries[k].name == word,
    ensures
        hover_after(parsed, text, position, sections) == if k < sections[at].entries.len() {
            Some(
                HoverView {
                    markdown: described(sections[at].entries[k]),
                    range: Range {
                        start: Position { line: position.line, character: start },
                        end: Position { line: position.line, character: end },
                    },
                },
            )
        } else {
            None
        },
{
    directives_are_found_in_the_section_of_the_block(
        word,
        context_after(parsed, text, position, sections),
        sections,
        section,
        at,
        k,
    );
}

/// Where the cursor is on no word, nothing is shown.
pub proof fn nothing_is_described_without_a_word(
    parsed: Result<Seq<StmtView>, SyntaxErrorView>,
    text: Seq<char>,
    position: Position,
    sections: Seq<SectionView>,
)
    ensures
        word_at(text, position) is None ==> hover_after(parsed, text, position, sections) is None,
{
}

} // verus!
