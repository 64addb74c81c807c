//! How to complete what the user is typing.

use vstd::prelude::*;

use crate::config::{
    parse_config, parse_outcome, parsed_config, Stmt, StmtView, SyntaxError, SyntaxErrorView,
};
use crate::context::{
    context_after, context_of, entry_in_context, include_entry, BlockContext, ContextView,
};
use crate::cursor::{
    first_word, is_name_position, name_position, names_are_first_words, word_at, word_at_position,
};
use crate::directives::{
    all_entries, find_entry, first_section_with_a_name_is_found, section_entries, DirectiveEntry,
    DirectiveRegistry, EntryView, SectionView,
};
use crate::protocol::{
    CompletionItem, CompletionItemKind, CompletionItemView, InsertTextFormat, Position,
};
use crate::text::{begins_with, same_text};
use crate::unicode::lowercase;

verus! {

/// The word that is being typed, in lower case, or nothing where the cursor is on no
/// word.
pub open spec fn typed_word(text: Seq<char>, position: Position) -> Seq<char> {
    match word_at(text, position) {
        Some((word, _, _)) => lowercase(word),
        None => seq![],
    }
}

/// The item that completes to a directive's name.
pub open spec fn entry_item(entry: EntryView) -> CompletionItemView {
    CompletionItemView {
        label: entry.name,
        kind: CompletionItemKind::Keyword,
        detail: entry.usage,
        documentation: entry.description,
        insert_text: entry.name + " "@,
        insert_text_format: InsertTextFormat::PlainText,
    }
}

/// Whether a directive may stand in a host block for the given protocol.
pub open spec fn allowed_for_host(entry: EntryView, protocol: Seq<char>) -> bool {
    !entry.global_only && match entry.applicable_protocols {
        Some(protocols) => protocols.contains(protocol),
        None => true,
    }
}

/// Whether a directive is offered for a typed word: its name begins with the word,
/// whatever the case, and it may stand in the host block around it, if there is one.
pub open spec fn offered(entry: EntryView, word: Seq<char>, host: Option<Seq<char>>) -> bool {
    &&& word.is_prefix_of(lowercase(entry.name))
    &&& host matches Some(protocol) ==> allowed_for_host(entry, protocol)
}

/// The items for those of some directives that are offered.
pub open spec fn offers(
    entries: Seq<EntryView>,
    word: Seq<char>,
    host: Option<Seq<char>>,
) -> Seq<CompletionItemView> {
    entries.filter(|entry: EntryView| offered(entry, word, host)).map_values(
        |entry: EntryView| entry_item(entry),
    )
}

/// What may stand outside of all blocks: an included file, a snippet, a matcher.
pub open spec fn top_level_items() -> Seq<CompletionItemView> {
    seq![
        CompletionItemView {
            label: "include"@,
            kind: CompletionItemKind::Keyword,
            detail: "include <path>"@,
            documentation: "Include another configuration file. Supports glob patterns."@,
            insert_text: "include "@,
            insert_text_format: InsertTextFormat::PlainText,
        },
        CompletionItemView {
            label: "snippet"@,
            kind: CompletionItemKind::Keyword,
            detail: "snippet <name> { ... }"@,
            documentation: "Define a reusable configuration snippet."@,
            insert_text: "snippet ${1:name} {\n\t$0\n}"@,
            insert_text_format: InsertTextFormat::Snippet,
        },
        CompletionItemView {
            label: "match"@,
            kind: CompletionItemKind::Keyword,
            detail: "match <name> { ... }"@,
            documentation: "Define a conditional matcher for request attributes."@,
            insert_text: "match ${1:name} {\n\t$0\n}"@,
            insert_text_format: InsertTextFormat::Snippet,
        },
    ]
}

/// The directives among which a context lets the user choose.
pub open spec fn candidates(context: ContextView, sections: Seq<SectionView>) -> Seq<EntryView> {
    let section = match context {
        ContextView::TopLevel => None,
        ContextView::GlobalBlock => section_entries(sections, "default"@),
        ContextView::HostBlock { .. } => section_entries(sections, "default"@),
        ContextView::DirectiveBlock { subblock_link, .. } => match subblock_link {
            Some(name) => section_entries(sections, name),
            None => None,
        },
        ContextView::SnippetBlock { .. } => Some(all_entries(sections)),
    };
    match section {
        Some(entries) => entries,
        None => seq![],
    }
}

/// The protocol that a context restricts directives to, if it is a host block. A
/// host block that names none is for HTTP.
pub open spec fn host_protocol(context: ContextView) -> Option<Seq<char>> {
    match context {
        ContextView::HostBlock { protocol } => match protocol {
            Some(name) => Some(name),
            None => Some("http"@),
        },
        _ => None,
    }
}

/// The items for a typed word in a context.
pub open spec fn items_in_context(
    context: ContextView,
    word: Seq<char>,
    sections: Seq<SectionView>,
) -> Seq<CompletionItemView> {
    match context {
        ContextView::TopLevel => top_level_items().filter(
            |item: CompletionItemView| word.is_prefix_of(item.label),
        ),
        _ => offers(candidates(context, sections), word, host_protocol(context)),
    }
}

/// How to complete what is being typed at the cursor, by how the file was parsed.
/// Values of directives, that is what is typed behind the first word of a line, are
/// not completed.
pub open spec fn completion_after(
    parsed: Result<Seq<StmtView>, SyntaxErrorView>,
    text: Seq<char>,
    position: Position,
    sections: Seq<SectionView>,
) -> Option<Seq<CompletionItemView>> {
    if name_position(text, position) {
        Some(
            items_in_context(
                context_after(parsed, text, position, sections),
                typed_word(text, position),
                sections,
            ),
        )
    } else {
        None
    }
}

// ---------------------------------------------------------------------------
// What follows from it

/// Only names of directives are completed, not values: something is offered exactly
/// where only whitespace stands before what is being typed. Where that is a word, it
/// is the first of its line.
pub proof fn only_first_words_are_completed(
    parsed: Result<Seq<StmtView>, SyntaxErrorView>,
    text: Seq<char>,
    position: Position,
    sections: Seq<SectionView>,
)
    ensures
        completion_after(parsed, text, position, sections) is Some <==> name_position(
            text,
            position,
        ),
        word_at(text, position) is Some ==> (completion_after(
            parsed,
            text,
            position,
            sections,
        ) is Some <==> first_word(text, position)),
{
    names_are_first_words(text, position);
}

/// The items in a block are those of the directives that may stand there and whose
/// names begin with the typed word: every one of them, and no other.
pub proof fn items_are_the_matching_directives(
    context: ContextView,
    word: Seq<char>,
    sections: Seq<SectionView>,
)
    requires
        context !is TopLevel,
    ensures
        forall|item: CompletionItemView| #[trigger]
            items_in_context(context, word, sections).contains(item) <==> exists|k: int|
                0 <= k < candidates(context, sections).len() && offered(
                    #[trigger] candidates(context, sections)[k],
                    word,
                    host_protocol(context),
                ) && item == entry_item(candidates(context, sections)[k]),
{
    let entries = candidates(context, sections);
    let host = host_protocol(context);
    let keep = |entry: EntryView| offered(entry, word, host);
    let kept = entries.filter(keep);
    let items = items_in_context(context, word, sections);
    broadcast use {Seq::lemma_filter_pred, Seq::lemma_filter_contains};
    assert forall|item: CompletionItemView| #[trigger] items.contains(item) implies exists|k: int|
        0 <= k < entries.len() && offered(#[trigger] entries[k], word, host) && item == entry_item(
            entries[k],
        ) by {
        let i = choose|i: int| 0 <= i < items.len() && items[i] == item;
        assert(keep(kept[i]));
        lemma_filter_from(entries, keep, i);
        let k = choose|k: int| 0 <= k < entries.len() && entries[k] == kept[i];
        assert(offered(entries[k], word, host));
    }
    assert forall|k: int|
        0 <= k < entries.len() && offered(#[trigger] entries[k], word, host) implies items.contains(
        entry_item(entries[k]),
    ) by {
        assert(keep(entries[k]));
        assert(kept.contains(entries[k]));
        let i = choose|i: int| 0 <= i < kept.len() && kept[i] == entries[k];
        assert(items[i] == entry_item(entries[k]));
    }
}

proof fn lemma_filter_from(entries: Seq<EntryView>, keep: spec_fn(EntryView) -> bool, i: int)
    requires
        0 <= i < entries.filter(keep).len(),
    ensures
        exists|k: int| 0 <= k < entries.len() && entries[k] == entries.filter(keep)[i],
    decreases entries.len(),
{
    reveal(Seq::filter);
    if entries.len() > 0 {
        let front = entries.drop_last();
        if i < front.filter(keep).len() {
            lemma_filter_from(front, keep, i);
            let k = choose|k: int| 0 <= k < front.len() && front[k] == front.filter(keep)[i];
            assert(entries[k] == entries.filter(keep)[i]);
        } else {
            assert(entries[entries.len() - 1] == entries.filter(keep)[i]);
        }
    }
}

proof fn lemma_found_is_member(entries: Seq<EntryView>, name: Seq<char>)
    ensures
        find_entry(entries, name) matches Some(entry) ==> entry.name == name && exists|k: int|
            0 <= k < entries.len() && entries[k] == entry,
    decreases entries.len(),
{
    if entries.len() > 0 && entries[0].name != name {
        lemma_found_is_member(entries.skip(1), name);
        if let Some(entry) = find_entry(entries.skip(1), name) {
            let k = choose|k: int| 0 <= k < entries.skip(1).len() && entries.skip(1)[k] == entry;
            assert(entries[k + 1] == entry);
        }
    }
}

/// A directive that is described when the cursor is on its name is also offered
/// there, in every block that it may stand in.
pub proof fn described_directives_are_offered(
    name: Seq<char>,
    context: ContextView,
    sections: Seq<SectionView>,
)
    requires
        context !is TopLevel,
    ensures
        entry_in_context(name, context, sections) matches Some(entry) ==> (host_protocol(
            context,
        ) matches Some(protocol) ==> allowed_for_host(entry, protocol))
            ==> items_in_context(context, lowercase(name), sections).contains(entry_item(entry)),
{
    let entries = candidates(context, sections);
    if let Some(entry) = entry_in_context(name, context, sections) {
        lemma_found_is_member(entries, name);
        items_are_the_matching_directives(context, lowercase(name), sections);
        let k = choose|k: int| 0 <= k < entries.len() && entries[k] == entry;
        assert(lowercase(name).is_prefix_of(lowercase(entry.name))) by {
            assert(lowercase(name) =~= lowercase(name).subrange(0, lowercase(name).len() as int));
        }
        if host_protocol(context) matches Some(protocol) ==> allowed_for_host(entry, protocol) {
            assert(offered(entries[k], lowercase(name), host_protocol(context)));
        }
    }
}

/// Outside of snippets, where all sections come together, the order of the sections
/// matters neither for what is described nor for what is offered.
pub proof fn order_of_sections_matters_in_snippets_only(
    context: ContextView,
    word: Seq<char>,
    sections: Seq<SectionView>,
    other: Seq<SectionView>,
)
    requires
        context !is SnippetBlock,
        forall|name: Seq<char>| #[trigger]
            section_entries(sections, name) == section_entries(other, name),
    ensures
        entry_in_context(word, context, sections) == entry_in_context(word, context, other),
        items_in_context(context, word, sections) == items_in_context(context, word, other),
{
}

/// Whether an item shows a directive and completes to its name: the inserted text is
/// the label and one space.
pub open spec fn completes_to(item: CompletionItemView, entry: EntryView) -> bool {
    &&& item.label == entry.name
    &&& item.insert_text == item.label.push(' ')
    &&& item.insert_text_format == InsertTextFormat::PlainText
    &&& item.detail == entry.usage
    &&& item.documentation == entry.description
    &&& item.kind == CompletionItemKind::Keyword
}

/// Whether a directive that begins with a word may be typed in a context. A host block
/// takes neither what stands in global blocks only, nor what is for protocols other than
/// its own, which is HTTP where it names none.
pub open spec fn may_be_typed(entry: EntryView, word: Seq<char>, context: ContextView) -> bool {
    &&& word.len() <= lowercase(entry.name).len()
    &&& forall|k: int| 0 <= k < word.len() ==> word[k] == #[trigger] lowercase(entry.name)[k]
    &&& context matches ContextView::HostBlock { protocol } ==> {
        &&& !entry.global_only
        &&& entry.applicable_protocols matches Some(allowed) ==> exists|k: int|
            0 <= k < allowed.len() && #[trigger] allowed[k] == match protocol {
                Some(name) => name,
                None => "http"@,
            }
    }
}

proof fn lemma_may_be_typed(entry: EntryView, word: Seq<char>, context: ContextView)
    ensures
        offered(entry, word, host_protocol(context)) <==> may_be_typed(entry, word, context),
{
    let name = lowercase(entry.name);
    if may_be_typed(entry, word, context) {
        assert(word =~= name.subrange(0, word.len() as int));
    }
    if word.is_prefix_of(name) {
        assert forall|k: int| 0 <= k < word.len() implies word[k] == #[trigger] name[k] by {
            assert(name.subrange(0, word.len() as int)[k] == name[k]);
        }
    }
}

proof fn lemma_filter_picks(entries: Seq<EntryView>, keep: spec_fn(EntryView) -> bool) -> (picks:
    Seq<int>)
    ensures
        picks.len() == entries.filter(keep).len(),
        forall|i: int, j: int| 0 <= i < j < picks.len() ==> picks[i] < picks[j],
        forall|i: int|
            0 <= i < picks.len() ==> 0 <= #[trigger] picks[i] < entries.len() && keep(
                entries[picks[i]],
            ) && entries.filter(keep)[i] == entries[picks[i]],
        forall|k: int|
            0 <= k < entries.len() && keep(#[trigger] entries[k]) ==> picks.contains(k),
    decreases entries.len(),
{
    reveal(Seq::filter);
    if entries.len() == 0 {
        Seq::empty()
    } else {
        let front = entries.drop_last();
        let before = lemma_filter_picks(front, keep);
        let last = entries.len() - 1;
        if keep(entries.last()) {
            let picks = before.push(last);
            assert forall|i: int| 0 <= i < picks.len() implies 0 <= #[trigger] picks[i]
                < entries.len() && keep(entries[picks[i]]) && entries.filter(keep)[i]
                == entries[picks[i]] by {
                if i < before.len() {
                    assert(picks[i] == before[i]);
                    assert(front[before[i]] == entries[before[i]]);
                }
            }
            assert forall|k: int|
                0 <= k < entries.len() && keep(#[trigger] entries[k]) implies picks.contains(k) by {
                if k < last {
                    assert(front[k] == entries[k]);
                    let i = choose|i: int| 0 <= i < before.len() && before[i] == k;
                    assert(picks[i] == k);
                } else {
                    assert(picks[before.len() as int] == k);
                }
            }
            picks
        } else {
            assert forall|i: int| 0 <= i < before.len() implies 0 <= #[trigger] before[i]
                < entries.len() && keep(entries[before[i]]) && entries.filter(keep)[i]
                == entries[before[i]] by {
                assert(front[before[i]] == entries[before[i]]);
            }
            assert forall|k: int|
                0 <= k < entries.len() && keep(#[trigger] entries[k]) implies before.contains(
                k,
            ) by {
                assert(k < last);
                assert(front[k] == entries[k]);
            }
            before
        }
    }
}

/// In a block, each directive that may be typed there is offered once, in the order in
/// which the directives come, by an item that completes to its name. Nothing else is
/// offered.
pub proof fn each_directive_is_offered_once(
    context: ContextView,
    word: Seq<char>,
    sections: Seq<SectionView>,
)
    requires
        context !is TopLevel,
    ensures
        ({
            let entries = candidates(context, sections);
            let items = items_in_context(context, word, sections);
            exists|picks: Seq<int>|
                {
                    &&& picks.len() == items.len()
                    &&& forall|i: int, j: int| 0 <= i < j < picks.len() ==> picks[i] < picks[j]
                    &&& forall|i: int|
                        0 <= i < picks.len() ==> 0 <= #[trigger] picks[i] < entries.len()
                            && may_be_typed(entries[picks[i]], word, context) && completes_to(
                            items[i],
                            entries[picks[i]],
                        )
                    &&& forall|k: int|
                        0 <= k < entries.len() && may_be_typed(
                            #[trigger] entries[k],
                            word,
                            context,
                        ) ==> #[trigger] picks.contains(k)
                }
        }),
{
    let entries = candidates(context, sections);
    let host = host_protocol(context);
    let items = items_in_context(context, word, sections);
    let keep = |entry: EntryView| offered(entry, word, host);
    let picks = lemma_filter_picks(entries, keep);
    reveal_strlit(" ");
    assert forall|i: int| 0 <= i < picks.len() implies 0 <= #[trigger] picks[i] < entries.len()
        && may_be_typed(entries[picks[i]], word, context) && completes_to(
        items[i],
        entries[picks[i]],
    ) by {
        let entry = entries[picks[i]];
        assert(keep(entry));
        lemma_may_be_typed(entry, word, context);
        assert(items[i] == entry_item(entry));
        assert(entry.name + " "@ =~= entry.name.push(' '));
    }
    assert forall|k: int|
        0 <= k < entries.len() && may_be_typed(
            #[trigger] entries[k],
            word,
            context,
        ) implies #[trigger] picks.contains(k) by {
        lemma_may_be_typed(entries[k], word, context);
        assert(keep(entries[k]));
    }
}

/// The user chooses among the directives of the section that the block takes its
/// directives from: `default` in a global or a host block, in the block of a directive
/// the one that the directive links to, and in a snippet all sections.
pub proof fn blocks_choose_among_their_section(
    context: ContextView,
    sections: Seq<SectionView>,
    section: Seq<char>,
    at: int,
)
    requires
        0 <= at <= sections.len(),
        forall|j: int| 0 <= j < at ==> (#[trigger] sections[j]).name != section,
        at < sections.len() ==> sections[at].name == section,
    ensures
        match context {
            ContextView::TopLevel => candidates(context, sections).len() == 0,
            ContextView::SnippetBlock { .. } => candidates(context, sections) == all_entries(
                sections,
            ),
            ContextView::DirectiveBlock { subblock_link: None, .. } => candidates(
                context,
                sections,
            ).len() == 0,
            ContextView::DirectiveBlock { subblock_link: Some(link), .. } => link == section
                ==> candidates(context, sections) == if at < sections.len() {
                sections[at].entries
            } else {
                Seq::empty()
            },
            _ => section == "default"@ ==> candidates(context, sections) == if at
                < sections.len() {
                sections[at].entries
            } else {
                Seq::empty()
            },
        },
{
    first_section_with_a_name_is_found(sections, section, at, section);
}

/// The item for a keyword that opens a block with a name.
pub open spec fn block_opener(
    item: CompletionItemView,
    label: Seq<char>,
    documentation: Seq<char>,
) -> bool {
    &&& item.label == label
    &&& item.kind == CompletionItemKind::Keyword
    &&& item.detail == label + " <name> { ... }"@
    &&& item.documentation == documentation
    &&& item.insert_text == label + " ${1:name} {\n\t$0\n}"@
    &&& item.insert_text_format == InsertTextFormat::Snippet
}

/// Outside of all blocks, `include`, `snippet` and `match` are offered, in this order,
/// each exactly if it begins with the word. The file that is to be included is typed
/// behind its keyword; the others open a block, in which the name is to be filled in.
pub proof fn keywords_are_offered_at_top_level(word: Seq<char>, sections: Seq<SectionView>)
    ensures
        ({
            let items = items_in_context(ContextView::TopLevel, word, sections);
            let a = if word.is_prefix_of("include"@) {
                1int
            } else {
                0
            };
            let b = a + if word.is_prefix_of("snippet"@) {
                1int
            } else {
                0
            };
            let c = b + if word.is_prefix_of("match"@) {
                1int
            } else {
                0
            };
            &&& items.len() == c
            &&& 0 < a ==> completes_to(items[0], include_entry())
            &&& a < b ==> block_opener(
                items[a],
                "snippet"@,
                "Define a reusable configuration snippet."@,
            )
            &&& b < c ==> block_opener(
                items[b],
                "match"@,
                "Define a conditional matcher for request attributes."@,
            )
        }),
{
    let keep = |item: CompletionItemView| word.is_prefix_of(item.label);
    let all = top_level_items();
    reveal_with_fuel(Seq::filter, 4);
    assert(all.drop_last() =~= all.take(2));
    assert(all.take(2).drop_last() =~= all.take(1));
    assert(all.take(1).drop_last() =~= all.take(0));
    assert(all.take(1).last() == all[0]);
    assert(all.take(2).last() == all[1]);
    assert(all.take(0).filter(keep) =~= seq![]);
    assert(items_in_context(ContextView::TopLevel, word, sections) == all.filter(keep));
    reveal_strlit("include");
    reveal_strlit("include ");
    reveal_strlit("snippet");
    reveal_strlit("match");
    reveal_strlit(" <name> { ... }");
    reveal_strlit("snippet <name> { ... }");
    reveal_strlit("match <name> { ... }");
    reveal_strlit(" ${1:name} {\n\t$0\n}");
    reveal_strlit("snippet ${1:name} {\n\t$0\n}");
    reveal_strlit("match ${1:name} {\n\t$0\n}");
    assert("include "@ =~= "include"@.push(' '));
    assert("snippet <name> { ... }"@ =~= "snippet"@ + " <name> { ... }"@);
    assert("match <name> { ... }"@ =~= "match"@ + " <name> { ... }"@);
    assert("snippet ${1:name} {\n\t$0\n}"@ =~= "snippet"@ + " ${1:name} {\n\t$0\n}"@);
    assert("match ${1:name} {\n\t$0\n}"@ =~= "match"@ + " ${1:name} {\n\t$0\n}"@);
}

/// Where a name is typed, the answer is what the context of the cursor offers for the
/// word under it, in lower case, or for nothing where the cursor is on no word.
pub proof fn typed_names_are_completed_in_context(
    parsed: Result<Seq<StmtView>, SyntaxErrorView>,
    text: Seq<char>,
    position: Position,
    sections: Seq<SectionView>,
)
    ensures
        name_position(text, position) ==> completion_after(parsed, text, position, sections)
            == Some(
            items_in_context(
                context_after(parsed, text, position, sections),
                match word_at(text, position) {
                    Some((word, _, _)) => lowercase(word),
                    None => Seq::empty(),
                },
                sections,
            ),
        ),
{
}

// ---------------------------------------------------------------------------
// The items

fn item_for(entry: &DirectiveEntry) -> (item: CompletionItem)
    ensures
        item@ == entry_item(entry@),
{
    CompletionItem {
        label: entry.name.clone(),
        kind: CompletionItemKind::Keyword,
        detail: entry.usage.clone(),
        documentation: entry.description.clone(),
        insert_text: entry.name.clone().concat(" "),
        insert_text_format: InsertTextFormat::PlainText,
    }
}

fn is_among(texts: &Vec<String>, text: &str) -> (yes: bool)
    ensures
        yes == texts.deep_view().contains(text@),
{
    let ghost all = texts.deep_view();
    let mut i: usize = 0;
    while i < texts.len()
        invariant
            i <= texts@.len(),
            all == texts.deep_view(),
            forall|k: int| 0 <= k < i ==> all[k] != text@,
        decreases texts@.len() - i,
    {
        assert(all[i as int] == texts@[i as int]@);
        if same_text(texts[i].as_str(), text) {
            return true;
        }
        i += 1;
    }
    false
}

fn may_stand_in_host(entry: &DirectiveEntry, protocol: &str) -> (yes: bool)
    ensures
        yes == allowed_for_host(entry@, protocol@),
{
    !entry.global_only && match &entry.applicable_protocols {
        Some(protocols) => is_among(protocols, protocol),
        None => true,
    }
}

fn is_offered(entry: &DirectiveEntry, word: &str, host: Option<&str>) -> (yes: bool)
    ensures
        yes == offered(entry@, word@, host.deep_view()),
{
    if !begins_with(entry.name.as_str().to_lowercase().as_str(), word) {
        return false;
    }
    match host {
        Some(protocol) => may_stand_in_host(entry, protocol),
        None => true,
    }
}

/// Appends the items for those of some directives that are offered.
fn offer(
    items: &mut Vec<CompletionItem>,
    entries: &Vec<DirectiveEntry>,
    word: &str,
    host: Option<&str>,
)
    ensures
        final(items).deep_view() == old(items).deep_view() + offers(
            entries.deep_view(),
            word@,
            host.deep_view(),
        ),
{
    let ghost all = entries.deep_view();
    let ghost before = items.deep_view();
    let ghost protocol = host.deep_view();
    let ghost keep = |entry: EntryView| offered(entry, word@, protocol);
    reveal(Seq::filter);
    let mut i: usize = 0;
    assert(items.deep_view() =~= before + offers(all.take(0), word@, protocol));
    while i < entries.len()
        invariant
            all == entries.deep_view(),
            protocol == host.deep_view(),
            keep == (|entry: EntryView| offered(entry, word@, protocol)),
            i <= entries@.len(),
            items.deep_view() == before + offers(all.take(i as int), word@, protocol),
        decreases entries@.len() - i,
    {
        let entry = &entries[i];
        reveal(Seq::filter);
        let ghost old_items = items.deep_view();
        let ghost next = all.take(i + 1);
        assert(next.drop_last() =~= all.take(i as int));
        assert(next.last() == entry@);
        if is_offered(entry, word, host) {
            items.push(item_for(entry));
            assert(items.deep_view() =~= old_items.push(entry_item(entry@)));
            assert(keep(entry@));
            assert(next.filter(keep) == all.take(i as int).filter(keep).push(entry@));
        } else {
            assert(!keep(entry@));
            assert(next.filter(keep) == all.take(i as int).filter(keep));
        }
        assert(items.deep_view() =~= before + offers(next, word@, protocol));
        i += 1;
    }
    assert(all.take(all.len() as int) =~= all);
}

/// Appends an item if its label begins with the typed word.
fn offer_keyword(items: &mut Vec<CompletionItem>, item: CompletionItem, word: &str)
    ensures
        final(items).deep_view() == if word@.is_prefix_of(item@.label) {
            old(items).deep_view().push(item@)
        } else {
            old(items).deep_view()
        },
{
    let ghost before = items.deep_view();
    if begins_with(item.label.as_str(), word) {
        items.push(item);
        assert(items.deep_view() =~= before.push(item@));
    }
}

fn keyword_items(word: &str) -> (items: Vec<CompletionItem>)
    ensures
        items.deep_view() == top_level_items().filter(
            |item: CompletionItemView| word@.is_prefix_of(item.label),
        ),
{
    let mut items: Vec<CompletionItem> = Vec::new();
    offer_keyword(
        &mut items,
        CompletionItem {
            label: "include".to_string(),
            kind: CompletionItemKind::Keyword,
            detail: "include <path>".to_string(),
            documentation: "Include another configuration file. Supports glob patterns.".to_string(),
            insert_text: "include ".to_string(),
            insert_text_format: InsertTextFormat::PlainText,
        },
        word,
    );
    offer_keyword(
        &mut items,
        CompletionItem {
            label: "snippet".to_string(),
            kind: CompletionItemKind::Keyword,
            detail: "snippet <name> { ... }".to_string(),
            documentation: "Define a reusable configuration snippet.".to_string(),
            insert_text: "snippet ${1:name} {\n\t$0\n}".to_string(),
            insert_text_format: InsertTextFormat::Snippet,
        },
        word,
    );
    offer_keyword(
        &mut items,
        CompletionItem {
            label: "match".to_string(),
            kind: CompletionItemKind::Keyword,
            detail: "match <name> { ... }".to_string(),
            documentation: "Define a conditional matcher for request attributes.".to_string(),
            insert_text: "match ${1:name} {\n\t$0\n}".to_string(),
            insert_text_format: InsertTextFormat::Snippet,
        },
        word,
    );
    proof {
        let keep = |item: CompletionItemView| word@.is_prefix_of(item.label);
        let all = top_level_items();
        reveal_with_fuel(Seq::filter, 4);
        assert(all.drop_last() =~= all.take(2));
        assert(all.take(2).drop_last() =~= all.take(1));
        assert(all.take(1).drop_last() =~= all.take(0));
        assert(all.take(1).last() == all[0]);
        assert(all.take(2).last() == all[1]);
        assert(all.take(0).filter(keep) =~= seq![]);
        assert(items.deep_view() =~= all.filter(keep));
    }
    items
}

/// Appends the items for those of the directives of all sections that are offered.
fn offer_all(items: &mut Vec<CompletionItem>, registry: &DirectiveRegistry, word: &str)
    ensures
        final(items).deep_view() == old(items).deep_view() + offers(
            all_entries(registry@),
            word@,
            None,
        ),
{
    let ghost all = registry@;
    let ghost before = items.deep_view();
    let ghost keep = |entry: EntryView| offered(entry, word@, None);
    let mut i: usize = 0;
    assert(all.skip(0) =~= all);
    while i < registry.sections.len()
        invariant
            all == registry@,
            keep == (|entry: EntryView| offered(entry, word@, None)),
            i <= registry.sections@.len(),
            items.deep_view() + offers(all_entries(all.skip(i as int)), word@, None) == before
                + offers(all_entries(all), word@, None),
        decreases registry.sections@.len() - i,
    {
        let ghost rest = all.skip(i as int);
        let ghost front = rest[0].entries;
        let ghost back = all_entries(rest.skip(1));
        let ghost old_items = items.deep_view();
        offer(items, &registry.sections[i].entries, word, None);
        proof {
            assert(rest[0] == registry.sections@[i as int]@);
            assert(rest.skip(1) =~= all.skip(i + 1));
            Seq::filter_distributes_over_add(front, back, keep);
            assert(offers(front + back, word@, None) =~= offers(front, word@, None) + offers(
                back,
                word@,
                None,
            ));
            assert(items.deep_view() + offers(back, word@, None) =~= old_items + offers(
                front + back,
                word@,
                None,
            ));
        }
        i += 1;
    }
    proof {
        let none = all.skip(i as int);
        assert(all_entries(none) =~= seq![]);
        reveal(Seq::filter);
        assert(offers(all_entries(none), word@, None) =~= seq![]);
        assert(items.deep_view() =~= before + offers(all_entries(all), word@, None));
    }
}

/// The items for a typed word in a context.
pub fn complete_in_context(
    context: &BlockContext,
    word: &str,
    registry: &DirectiveRegistry,
) -> (items: Vec<CompletionItem>)
    ensures
        items.deep_view() == items_in_context(context@, word@, registry@),
{
    let mut items: Vec<CompletionItem> = Vec::new();
    reveal(Seq::filter);
    match context {
        BlockContext::TopLevel => {
            return keyword_items(word);
        },
        BlockContext::GlobalBlock => {
            if let Some(entries) = registry.section("default") {
                offer(&mut items, entries, word, None);
            }
        },
        BlockContext::HostBlock { protocol } => {
            let name: &str = match protocol {
                Some(p) => p.as_str(),
                None => "http",
            };
            if let Some(entries) = registry.section("default") {
                offer(&mut items, entries, word, Some(name));
            }
        },
        BlockContext::DirectiveBlock { subblock_link, .. } => {
            if let Some(section) = subblock_link {
                if let Some(entries) = registry.section(section.as_str()) {
                    offer(&mut items, entries, word, None);
                }
            }
        },
        BlockContext::SnippetBlock { .. } => {
            offer_all(&mut items, registry, word);
        },
    }
    assert(items.deep_view() =~= items_in_context(context@, word@, registry@));
    items
}

fn current_word(text: &str, position: Position) -> (word: String)
    ensures
        word@ == typed_word(text@, position),
        word@.len() == 0 <==> word_at(text@, position) is None,
{
    match word_at_position(text, position) {
        Some((word, _, _)) => word.as_str().to_lowercase(),
        None => String::new(),
    }
}

/// How to complete what is being typed at the cursor in a file that was parsed to
/// `parsed`.
pub fn completion_in(
    parsed: &Result<Vec<Stmt>, SyntaxError>,
    text: &str,
    position: Position,
    registry: &DirectiveRegistry,
) -> (items: Option<Vec<CompletionItem>>)
    ensures
        items.deep_view() == completion_after(parse_outcome(*parsed), text@, position, registry@),
{
    if !is_name_position(text, position) {
        return None;
    }
    let word = current_word(text, position);
    let context = context_of(parsed, text, position, registry);
    Some(complete_in_context(&context, word.as_str(), registry))
}

/// How to complete what is being typed at the cursor in a file.
pub fn completion(text: &str, position: Position, registry: &DirectiveRegistry) -> (items: Option<
    Vec<CompletionItem>,
>)
    ensures
        items.deep_view() == completion_after(parsed_config(text@), text@, position, registry@),
{
    completion_in(&parse_config(text), text, position, registry)
}

} // verus!
