//! Which block of a configuration file the cursor is in, and which directives may
//! stand there.

use vstd::prelude::*;

use crate::config::{
    parse_outcome, statement_view, statement_views, Place, Stmt, StmtView, SyntaxError,
    SyntaxErrorView,
};
use crate::directives::{
    all_entries, clone_optional, find_entry, find_in_section, first_entry_with_a_name_is_found,
    first_section_with_a_name_is_found, lemma_find_entry_concat, DirectiveEntry, DirectiveRegistry,
    EntryView, SectionView,
};
use crate::formatting::{lemma_line_break_bounds, offset};
use crate::protocol::Position;
use crate::text::{
    byte_length, chars_of, lemma_lines_length, line_break, lines, same_text, split_lines,
    total_length, without_return,
};
use vstd::utf8::encode_utf8;

verus! {

/// The chain of blocks from the file root down to the cursor position.
#[derive(Debug, PartialEq, Eq)]
pub enum BlockContext {
    TopLevel,
    GlobalBlock,
    HostBlock { protocol: Option<String> },
    SnippetBlock { name: String },
    DirectiveBlock { name: String, subblock_link: Option<String>, parent: Box<BlockContext> },
}

/// What a [`BlockContext`] stands for.
pub enum ContextView {
    TopLevel,
    GlobalBlock,
    HostBlock { protocol: Option<Seq<char>> },
    SnippetBlock { name: Seq<char> },
    DirectiveBlock {
        name: Seq<char>,
        subblock_link: Option<Seq<char>>,
        parent: Box<ContextView>,
    },
}

/// What a context stands for.
pub open spec fn context_view(context: BlockContext) -> ContextView
    decreases context,
{
    match context {
        BlockContext::TopLevel => ContextView::TopLevel,
        BlockContext::GlobalBlock => ContextView::GlobalBlock,
        BlockContext::HostBlock { protocol } => ContextView::HostBlock {
            protocol: protocol.deep_view(),
        },
        BlockContext::SnippetBlock { name } => ContextView::SnippetBlock { name: name@ },
        BlockContext::DirectiveBlock { name, subblock_link, parent } => {
            ContextView::DirectiveBlock {
                name: name@,
                subblock_link: subblock_link.deep_view(),
                parent: Box::new(context_view(*parent)),
            }
        },
    }
}

impl View for BlockContext {
    type V = ContextView;

    open spec fn view(&self) -> ContextView {
        context_view(*self)
    }
}

/// A context stands for its kind, its names, and the context around it.
pub proof fn contexts_stand_for_their_fields(context: BlockContext)
    ensures
        match context {
            BlockContext::TopLevel => context@ is TopLevel,
            BlockContext::GlobalBlock => context@ is GlobalBlock,
            BlockContext::HostBlock { protocol: None } => context@ == (ContextView::HostBlock {
                protocol: None,
            }),
            BlockContext::HostBlock { protocol: Some(name) } => context@ == (
            ContextView::HostBlock { protocol: Some(name@) }),
            BlockContext::SnippetBlock { name } => context@ == (ContextView::SnippetBlock {
                name: name@,
            }),
            BlockContext::DirectiveBlock { name, subblock_link, parent } => {
                &&& context@ matches ContextView::DirectiveBlock {
                    name: seen,
                    subblock_link: link,
                    parent: around,
                }
                &&& seen == name@
                &&& match subblock_link {
                    Some(section) => link == Some(section@),
                    None => link is None,
                }
                &&& *around == (*parent)@
            },
        },
{
}

// ---------------------------------------------------------------------------
// Directives in context

/// The one directive that may stand outside of all blocks.
pub open spec fn include_entry() -> EntryView {
    EntryView {
        name: "include"@,
        usage: "include <path>"@,
        description: "Include another configuration file. Supports glob patterns."@,
        applicable_protocols: None,
        global_only: false,
        subblock_link: None,
    }
}

/// The directive with the given name that may stand in a context.
pub open spec fn entry_in_context(
    name: Seq<char>,
    context: ContextView,
    sections: Seq<SectionView>,
) -> Option<EntryView> {
    match context {
        ContextView::TopLevel => if name == "include"@ {
            Some(include_entry())
        } else {
            None
        },
        ContextView::GlobalBlock => find_in_section(sections, "default"@, name),
        ContextView::HostBlock { .. } => find_in_section(sections, "default"@, name),
        ContextView::DirectiveBlock { subblock_link, .. } => match subblock_link {
            Some(section) => find_in_section(sections, section, name),
            None => None,
        },
        ContextView::SnippetBlock { .. } => find_entry(all_entries(sections), name),
    }
}

/// The section whose directives may stand in the block of a directive, if that
/// directive may stand in the context and has such a section.
pub open spec fn link_in_context(
    name: Seq<char>,
    context: ContextView,
    sections: Seq<SectionView>,
) -> Option<Seq<char>> {
    let found = match context {
        ContextView::GlobalBlock => find_in_section(sections, "default"@, name),
        ContextView::HostBlock { .. } => find_in_section(sections, "default"@, name),
        ContextView::DirectiveBlock { subblock_link, .. } => match subblock_link {
            Some(section) => find_in_section(sections, section, name),
            None => None,
        },
        ContextView::SnippetBlock { .. } => find_entry(all_entries(sections), name),
        ContextView::TopLevel => None,
    };
    match found {
        Some(entry) => entry.subblock_link,
        None => None,
    }
}

/// In every context, the block of a directive takes its directives from the
/// section that the directive's own entry in that context links to.
pub proof fn links_agree_with_entries(
    name: Seq<char>,
    context: ContextView,
    sections: Seq<SectionView>,
)
    ensures
        link_in_context(name, context, sections) == match entry_in_context(
            name,
            context,
            sections,
        ) {
            Some(entry) => entry.subblock_link,
            None => None,
        },
{
}

/// The section that a context takes its directives from holds the directives that are
/// found there: in a global or a host block the section `default`, in the block of a
/// directive the one that the directive links to. Of the directives with a name the
/// first is found, and nothing where the section is missing or has none.
pub proof fn directives_are_found_in_the_section_of_the_block(
    name: Seq<char>,
    context: ContextView,
    sections: Seq<SectionView>,
    section: Seq<char>,
    at: int,
    k: int,
)
    requires
        context is GlobalBlock || context is HostBlock ==> section == "default"@,
        context matches ContextView::DirectiveBlock { subblock_link, .. } ==> subblock_link == Some(
            section,
        ),
        context is GlobalBlock || context is HostBlock || context is DirectiveBlock,
        0 <= at <= sections.len(),
        forall|j: int| 0 <= j < at ==> (#[trigger] sections[j]).name != section,
        at < sections.len() ==> {
            &&& sections[at].name == section
            &&& 0 <= k <= sections[at].entries.len()
            &&& forall|j: int| 0 <= j < k ==> (#[trigger] sections[at].entries[j]).name != name
            &&& k < sections[at].entries.len() ==> sections[at].entries[k].name == name
        },
    ensures
        ({
            let found = at < sections.len() && k < sections[at].entries.len();
            &&& entry_in_context(name, context, sections) == if found {
                Some(sections[at].entries[k])
            } else {
                None
            }
            &&& link_in_context(name, context, sections) == if found {
                sections[at].entries[k].subblock_link
            } else {
                None
            }
        }),
{
    first_section_with_a_name_is_found(sections, section, at, name);
    if at < sections.len() {
        first_entry_with_a_name_is_found(sections[at].entries, name, k);
    }
}

/// In a snippet, which may be used in any block, a directive is found in the first of
/// all sections that has it.
pub proof fn snippets_take_directives_from_all_sections(
    name: Seq<char>,
    snippet: Seq<char>,
    sections: Seq<SectionView>,
    at: int,
    k: int,
)
    requires
        0 <= at <= sections.len(),
        forall|j: int, e: int|
            0 <= j < at && 0 <= e < sections[j].entries.len() ==> (
            #[trigger] sections[j].entries[e]).name != name,
        at < sections.len() ==> {
            &&& 0 <= k < sections[at].entries.len()
            &&& forall|j: int| 0 <= j < k ==> (#[trigger] sections[at].entries[j]).name != name
            &&& sections[at].entries[k].name == name
        },
    ensures
        ({
            let context = ContextView::SnippetBlock { name: snippet };
            &&& entry_in_context(name, context, sections) == if at < sections.len() {
                Some(sections[at].entries[k])
            } else {
                None
            }
            &&& link_in_context(name, context, sections) == if at < sections.len() {
                sections[at].entries[k].subblock_link
            } else {
                None
            }
        }),
    decreases sections.len(),
{
    if sections.len() > 0 {
        let first = sections[0].entries;
        let rest = sections.skip(1);
        lemma_find_entry_concat(first, all_entries(rest), name);
        if at == 0 {
            first_entry_with_a_name_is_found(first, name, k);
        } else {
            first_entry_with_a_name_is_found(first, name, first.len() as int);
            assert forall|j: int, e: int|
                0 <= j < at - 1 && 0 <= e < rest[j].entries.len() implies (
            #[trigger] rest[j].entries[e]).name != name by {
                assert(rest[j] == sections[j + 1]);
                assert(sections[j + 1].entries[e].name != name);
            }
            if at < sections.len() {
                assert(rest[at - 1] == sections[at]);
            }
            snippets_take_directives_from_all_sections(name, snippet, rest, at - 1, k);
        }
    }
}

/// Outside of all blocks there is only `include`, which has no block; in the block of a
/// directive that links to no section there is nothing.
pub proof fn directives_without_a_section(
    name: Seq<char>,
    directive: Seq<char>,
    parent: ContextView,
    sections: Seq<SectionView>,
)
    ensures
        entry_in_context(name, ContextView::TopLevel, sections) is Some <==> name == "include"@,
        entry_in_context(name, ContextView::TopLevel, sections) matches Some(entry) ==> {
            &&& entry.name == name
            &&& entry.applicable_protocols is None
            &&& !entry.global_only
            &&& entry.subblock_link is None
        },
        link_in_context(name, ContextView::TopLevel, sections) is None,
        ({
            let unlinked = ContextView::DirectiveBlock {
                name: directive,
                subblock_link: None,
                parent: Box::new(parent),
            };
            &&& entry_in_context(name, unlinked, sections) is None
            &&& link_in_context(name, unlinked, sections) is None
        }),
{
}

fn link_of(found: Option<&DirectiveEntry>) -> (link: Option<String>)
    ensures
        link.deep_view() == match found {
            Some(entry) => entry@.subblock_link,
            None => None,
        },
{
    match found {
        Some(entry) => clone_optional(&entry.subblock_link),
        None => None,
    }
}

/// Looks up the subblock link of a directive in the section that corresponds to
/// the current block context.
pub fn resolve_subblock_link(
    directive_name: &str,
    context: &BlockContext,
    registry: &DirectiveRegistry,
) -> (link: Option<String>)
    ensures
        link.deep_view() == link_in_context(directive_name@, context@, registry@),
{
    match context {
        BlockContext::GlobalBlock => link_of(registry.find_in("default", directive_name)),
        BlockContext::HostBlock { .. } => link_of(registry.find_in("default", directive_name)),
        BlockContext::DirectiveBlock { subblock_link, .. } => match subblock_link {
            Some(section) => link_of(registry.find_in(section.as_str(), directive_name)),
            None => None,
        },
        BlockContext::SnippetBlock { .. } => link_of(registry.find_anywhere(directive_name)),
        BlockContext::TopLevel => None,
    }
}

fn copy_of(found: Option<&DirectiveEntry>) -> (copy: Option<DirectiveEntry>)
    ensures
        copy.deep_view() == found.deep_view(),
{
    match found {
        Some(entry) => Some(entry.clone()),
        None => None,
    }
}

/// Looks up a directive entry in the section appropriate for the given context.
pub fn lookup_entry_in_context(
    directive_name: &str,
    context: &BlockContext,
    registry: &DirectiveRegistry,
) -> (entry: Option<DirectiveEntry>)
    ensures
        entry.deep_view() == entry_in_context(directive_name@, context@, registry@),
{
    match context {
        BlockContext::TopLevel => if same_text(directive_name, "include") {
            Some(
                DirectiveEntry {
                    name: "include".to_string(),
                    usage: "include <path>".to_string(),
                    description: "Include another configuration file. Supports glob patterns.".to_string(),
                    applicable_protocols: None,
                    global_only: false,
                    subblock_link: None,
                },
            )
        } else {
            None
        },
        BlockContext::GlobalBlock => copy_of(registry.find_in("default", directive_name)),
        BlockContext::HostBlock { .. } => copy_of(registry.find_in("default", directive_name)),
        BlockContext::DirectiveBlock { subblock_link, .. } => match subblock_link {
            Some(section) => copy_of(registry.find_in(section.as_str(), directive_name)),
            None => None,
        },
        BlockContext::SnippetBlock { .. } => copy_of(registry.find_anywhere(directive_name)),
    }
}

// ---------------------------------------------------------------------------
// Where a block ends

/// How a character changes the number of open braces.
pub open spec fn brace_change(c: char) -> int {
    if c == '{' {
        1
    } else if c == '}' {
        -1
    } else {
        0
    }
}

/// The opening braces in a text, less the closing ones.
pub open spec fn open_braces(text: Seq<char>) -> int
    decreases text.len(),
{
    if text.len() == 0 {
        0
    } else {
        open_braces(text.drop_last()) + brace_change(text.last())
    }
}

/// The opening braces, less the closing ones, from column `start` of line `from` up to
/// column `column` of line `line`.
pub open spec fn open_braces_between(
    all: Seq<Seq<char>>,
    from: int,
    start: int,
    line: int,
    column: int,
) -> int
    decreases line - from,
{
    if line > from {
        open_braces_between(all, from, start, line - 1, all[line - 1].len() as int) + open_braces(
            all[line].take(column),
        )
    } else if start < column {
        open_braces(all[line].subrange(start, column))
    } else {
        0
    }
}

/// Whether the block that opens at column `start` of line `from` may close at a place:
/// a closing brace stands there, and from the beginning of the block up to and with it
/// there are as many closing braces as opening ones.
pub open spec fn balances_at(
    all: Seq<Seq<char>>,
    from: int,
    start: int,
    line: int,
    column: int,
) -> bool {
    &&& from <= line < all.len()
    &&& line == from ==> start <= column
    &&& 0 <= column < all[line].len()
    &&& all[line][column] == '}'
    &&& open_braces_between(all, from, start, line, column + 1) == 0
}

/// Where the braces that are open at a column of a line are closed, or how many are
/// open at the end of the line.
pub open spec fn close_in_line(line: Seq<char>, column: int, depth: int) -> Result<int, int>
    decreases line.len() - column,
{
    if column >= line.len() {
        Err(depth)
    } else if line[column] == '}' && depth == 1 {
        Ok(column)
    } else {
        close_in_line(line, column + 1, depth + brace_change(line[column]))
    }
}

/// Where the braces that are open at a column of a line are closed, on that line or
/// below it.
pub open spec fn close_from(all: Seq<Seq<char>>, line: int, column: int, depth: int) -> Option<
    (int, int),
>
    decreases all.len() - line,
{
    if line >= all.len() {
        None
    } else {
        match close_in_line(all[line], column, depth) {
            Ok(at) => Some((line, at)),
            Err(after) => close_from(all, line + 1, 0, after),
        }
    }
}

/// The end of a text: its last line, and the last byte of that line.
pub open spec fn last_place(all: Seq<Seq<char>>) -> (int, int) {
    if all.len() == 0 {
        (0, 0)
    } else {
        let bytes = encode_utf8(all.last()).len();
        (
            all.len() - 1,
            if bytes == 0 {
                0
            } else {
                bytes - 1
            },
        )
    }
}

/// The line and column where the block whose opening brace is at a place ends: the
/// first closing brace up to which, from the opening brace on, there are as many
/// closing braces as opening ones, or the end of the text where there is none.
pub open spec fn block_end_from(text: Seq<char>, line: int, column: int) -> (int, int) {
    match close_from(lines(text), line, column, 0) {
        Some(place) => place,
        None => last_place(lines(text)),
    }
}

/// Where the first opening brace of a line is, from a column on.
pub open spec fn opening_brace(line: Seq<char>, column: int) -> Option<int>
    decreases line.len() - column,
{
    if column >= line.len() {
        None
    } else if line[column] == '{' {
        Some(column)
    } else {
        opening_brace(line, column + 1)
    }
}

/// The column from which the braces of a line are counted: that of its first opening
/// brace, or the beginning of a line that has none.
pub open spec fn opening_column(all: Seq<Seq<char>>, line: int) -> int {
    if line < all.len() {
        match opening_brace(all[line], 0) {
            Some(column) => column,
            None => 0,
        }
    } else {
        0
    }
}

/// The line and column where the block that opens on a line ends: the closing brace
/// that matches the first opening brace of that line, or the end of the text where
/// there is none.
pub open spec fn block_end(text: Seq<char>, open_brace_line: int) -> (int, int) {
    block_end_from(text, open_brace_line, opening_column(lines(text), open_brace_line))
}

/// Whether some braces are open at a column of a line, or one opens there.
spec fn inside(line: Seq<char>, column: int, depth: int) -> bool {
    depth >= 1 || (depth == 0 && 0 <= column < line.len() && line[column] == '{')
}

proof fn lemma_close_in_line(
    all: Seq<Seq<char>>,
    from: int,
    start: int,
    line: int,
    column: int,
    depth: int,
)
    requires
        0 <= from <= line < all.len(),
        0 <= column <= all[line].len(),
        0 <= start,
        line == from ==> start <= column,
        depth == open_braces_between(all, from, start, line, column),
    ensures
        match close_in_line(all[line], column, depth) {
            Ok(at) => {
                &&& column <= at
                &&& balances_at(all, from, start, line, at)
                &&& forall|k: int| column <= k < at ==> !balances_at(all, from, start, line, k)
                &&& inside(all[line], column, depth) ==> forall|k: int|
                    column <= k < at ==> #[trigger] open_braces_between(
                        all,
                        from,
                        start,
                        line,
                        k + 1,
                    ) >= 1
            },
            Err(after) => {
                &&& after == open_braces_between(all, from, start, line, all[line].len() as int)
                &&& forall|k: int| column <= k ==> !balances_at(all, from, start, line, k)
                &&& inside(all[line], column, depth) ==> after >= 1 && forall|k: int|
                    column <= k < all[line].len() ==> #[trigger] open_braces_between(
                        all,
                        from,
                        start,
                        line,
                        k + 1,
                    ) >= 1
            },
        },
    decreases all[line].len() - column,
{
    if column < all[line].len() {
        let c = all[line][column];
        if line > from {
            let next = all[line].take(column + 1);
            assert(next.drop_last() =~= all[line].take(column));
            assert(next.last() == c);
        } else {
            let next = all[line].subrange(start, column + 1);
            assert(next.drop_last() =~= all[line].subrange(start, column));
            assert(next.last() == c);
            assert(start == column ==> open_braces(next.drop_last()) == 0);
        }
        assert(open_braces_between(all, from, start, line, column + 1) == depth + brace_change(c));
        if !(c == '}' && depth == 1) {
            assert(!balances_at(all, from, start, line, column));
            lemma_close_in_line(all, from, start, line, column + 1, depth + brace_change(c));
        }
    }
}

/// Whether a place is at another one or behind it, and before a third.
pub open spec fn lies_between(place: (int, int), first: (int, int), end: (int, int)) -> bool {
    &&& first.0 < place.0 || (first.0 == place.0 && first.1 <= place.1)
    &&& place.0 < end.0 || (place.0 == end.0 && place.1 < end.1)
}

proof fn lemma_close_from(
    all: Seq<Seq<char>>,
    from: int,
    start: int,
    line: int,
    column: int,
    depth: int,
)
    requires
        0 <= from <= line,
        0 <= start,
        column == if line == from {
            start
        } else {
            0
        },
        line < all.len() ==> depth == open_braces_between(all, from, start, line, column),
    ensures
        match close_from(all, line, column, depth) {
            Some((l, c)) => {
                &&& line <= l
                &&& balances_at(all, from, start, l, c)
                &&& forall|l2: int, c2: int|
                    lies_between((l2, c2), (line, column), (l, c)) ==> !balances_at(
                        all,
                        from,
                        start,
                        l2,
                        c2,
                    )
                &&& inside(all[line], column, depth) ==> forall|l2: int, c2: int|
                    lies_between((l2, c2), (line, column), (l, c)) && 0 <= c2 < all[l2].len()
                        ==> #[trigger] open_braces_between(all, from, start, l2, c2 + 1) >= 1
            },
            None => forall|l2: int, c2: int| line <= l2 ==> !balances_at(all, from, start, l2, c2),
        },
    decreases all.len() - line,
{
    if line < all.len() {
        let this = all[line];
        if column <= this.len() {
            lemma_close_in_line(all, from, start, line, column, depth);
        }
        if let Err(after) = close_in_line(this, column, depth) {
            assert(after == open_braces_between(all, from, start, line, this.len() as int));
            if line + 1 < all.len() {
                assert(all[line + 1].take(0) =~= seq![]);
            }
            lemma_close_from(all, from, start, line + 1, 0, after);
            assert forall|c2: int| !balances_at(all, from, start, line, c2) || c2 < column by {
                if column <= c2 && column <= this.len() {
                    assert(!balances_at(all, from, start, line, c2));
                }
            }
            match close_from(all, line + 1, 0, after) {
                Some((l, c)) => {
                    assert forall|l2: int, c2: int|
                        lies_between((l2, c2), (line, column), (l, c)) implies !balances_at(
                        all,
                        from,
                        start,
                        l2,
                        c2,
                    ) by {
                        if l2 > line && c2 >= 0 {
                            assert(lies_between((l2, c2), (line + 1, 0), (l, c)));
                        }
                    }
                    if inside(this, column, depth) {
                        assert forall|l2: int, c2: int|
                            lies_between((l2, c2), (line, column), (l, c)) && 0 <= c2
                                < all[l2].len() implies #[trigger] open_braces_between(
                            all,
                            from,
                            start,
                            l2,
                            c2 + 1,
                        ) >= 1 by {
                            if l2 > line {
                                assert(lies_between((l2, c2), (line + 1, 0), (l, c)));
                            }
                        }
                    }
                },
                None => {
                    assert forall|l2: int, c2: int| line <= l2 implies !balances_at(
                        all,
                        from,
                        start,
                        l2,
                        c2,
                    ) by {}
                },
            }
        }
    }
}

/// The end of the block that opens at a place is the first closing brace that balances
/// the braces since that place; only where no closing brace does is it the end of the
/// text. Where an opening brace stands at the place, some brace is open everywhere
/// between the two.
pub proof fn block_ends_at_matching_brace(text: Seq<char>, line: int, column: int)
    requires
        0 <= line,
        0 <= column,
    ensures
        ({
            let (end, at) = block_end_from(text, line, column);
            let all = lines(text);
            ||| {
                &&& balances_at(all, line, column, end, at)
                &&& forall|l: int, c: int|
                    l < end || (l == end && c < at) ==> !balances_at(all, line, column, l, c)
                &&& column < all[line].len() && all[line][column] == '{' ==> forall|l: int, c: int|
                    lies_between((l, c), (line, column), (end, at)) && 0 <= c < all[l].len()
                        ==> #[trigger] open_braces_between(all, line, column, l, c + 1) >= 1
            }
            ||| {
                &&& (end, at) == last_place(all)
                &&& forall|l: int, c: int| !balances_at(all, line, column, l, c)
            }
        }),
{
    let all = lines(text);
    lemma_close_from(all, line, column, line, column, 0);
    if let Some((end, at)) = close_from(all, line, column, 0) {
        assert forall|l: int, c: int| l < end || (l == end && c < at) implies !balances_at(
            all,
            line,
            column,
            l,
            c,
        ) by {
            if balances_at(all, line, column, l, c) {
                assert(lies_between((l, c), (line, column), (end, at)));
            }
        }
    }
}

proof fn lemma_opening_brace(line: Seq<char>, column: int, at: int)
    requires
        0 <= column <= at < line.len(),
        line[at] == '{',
        forall|k: int| column <= k < at ==> #[trigger] line[k] != '{',
    ensures
        opening_brace(line, column) == Some(at),
    decreases at - column,
{
    if column < at {
        lemma_opening_brace(line, column + 1, at);
    }
}

/// The block that opens on a line ends where the block of the line's first opening
/// brace does. What stands before that brace does not matter.
pub proof fn block_opens_at_first_brace(text: Seq<char>, line: int, column: int)
    requires
        0 <= line < lines(text).len(),
        0 <= column < lines(text)[line].len(),
        lines(text)[line][column] == '{',
        forall|k: int| 0 <= k < column ==> #[trigger] lines(text)[line][k] != '{',
    ensures
        block_end(text, line) == block_end_from(text, line, column),
{
    lemma_opening_brace(lines(text)[line], 0, column);
}

/// How often a character occurs in a text.
pub open spec fn occurrences(text: Seq<char>, c: char) -> nat
    decreases text.len(),
{
    if text.len() == 0 {
        0
    } else {
        occurrences(text.drop_last(), c) + if text.last() == c {
            1nat
        } else {
            0nat
        }
    }
}

/// The braces that are open behind a text are those that it opens and does not close.
pub proof fn open_braces_are_those_not_closed(text: Seq<char>)
    ensures
        open_braces(text) == occurrences(text, '{') - occurrences(text, '}'),
    decreases text.len(),
{
    if text.len() > 0 {
        open_braces_are_those_not_closed(text.drop_last());
    }
}

proof fn lemma_open_braces_concat(front: Seq<char>, back: Seq<char>)
    ensures
        open_braces(front + back) == open_braces(front) + open_braces(back),
    decreases back.len(),
{
    if back.len() == 0 {
        assert(front + back =~= front);
    } else {
        assert((front + back).drop_last() =~= front + back.drop_last());
        lemma_open_braces_concat(front, back.drop_last());
    }
}

proof fn lemma_between_rest(first: Seq<char>, rest: Seq<Seq<char>>, line: int, column: int)
    requires
        0 <= line < rest.len(),
        0 <= column <= rest[line].len(),
    ensures
        open_braces_between(seq![first] + rest, 0, 0, line + 1, column) == open_braces(first)
            + open_braces_between(rest, 0, 0, line, column),
    decreases line,
{
    let all = seq![first] + rest;
    assert(all[line + 1] == rest[line]);
    if line == 0 {
        assert(all[0] == first);
        assert(first.subrange(0, first.len() as int) =~= first);
        assert(rest[0].subrange(0, column) =~= rest[0].take(column));
        assert(open_braces(Seq::<char>::empty()) == 0);
        assert(column == 0 ==> rest[0].take(column) =~= Seq::<char>::empty());
        assert(first.len() == 0 ==> first =~= Seq::<char>::empty());
        assert(open_braces_between(all, 0, 0, 0, first.len() as int) == open_braces(first));
        assert(open_braces_between(rest, 0, 0, 0, column) == open_braces(rest[0].take(column)));
    } else {
        assert(all[line] == rest[line - 1]);
        lemma_between_rest(first, rest, line - 1, rest[line - 1].len() as int);
    }
}

/// The characters of a text's lines are those of the text, and the braces before one
/// in its lines are those before it in the text.
proof fn lemma_offset(text: Seq<char>, line: int, column: int)
    requires
        0 <= line < lines(text).len(),
        0 <= column <= lines(text)[line].len(),
    ensures
        0 <= offset(text, line, column) <= text.len(),
        open_braces(text.take(offset(text, line, column))) == open_braces_between(
            lines(text),
            0,
            0,
            line,
            column,
        ),
        column < lines(text)[line].len() ==> offset(text, line, column) < text.len() && text[offset(
            text,
            line,
            column,
        )] == lines(text)[line][column],
    decreases text.len(),
{
    lemma_line_break_bounds(text);
    let at = line_break(text) as int;
    let all = lines(text);
    if line == 0 {
        let first = all[0];
        assert(first.len() <= at);
        assert(forall|k: int| 0 <= k < first.len() ==> first[k] == text[k]);
        assert(first.subrange(0, column) =~= text.take(column));
        assert(column == 0 ==> text.take(column) =~= Seq::<char>::empty());
    } else {
        let rest = text.skip(at + 1);
        let head = text.take(at);
        assert(at < text.len());
        assert(all == seq![without_return(head)] + lines(rest));
        assert(all[line] == lines(rest)[line - 1]);
        lemma_offset(rest, line - 1, column);
        lemma_between_rest(without_return(head), lines(rest), line - 1, column);
        let inner = offset(rest, line - 1, column);
        assert(text.take(at + 1 + inner) =~= text.take(at + 1) + rest.take(inner));
        lemma_open_braces_concat(text.take(at + 1), rest.take(inner));
        assert(text.take(at + 1).drop_last() =~= head);
        assert(text.take(at + 1).last() == '\n');
        assert(open_braces(head) == open_braces(without_return(head)));
        if column < all[line].len() {
            assert(text[at + 1 + inner] == rest[inner]);
        }
    }
}

/// Every character of a text that ends no line stands in some line.
proof fn lemma_place_of(text: Seq<char>, i: int) -> (place: (int, int))
    requires
        0 <= i < text.len(),
        text[i] != '\n',
        text[i] != '\r',
    ensures
        0 <= place.0 < lines(text).len(),
        0 <= place.1 < lines(text)[place.0].len(),
        offset(text, place.0, place.1) == i,
    decreases text.len(),
{
    lemma_line_break_bounds(text);
    let at = line_break(text) as int;
    if at >= text.len() {
        (0, i)
    } else if i < at {
        let head = text.take(at);
        assert(head.last() == text[at - 1]);
        (0, i)
    } else {
        let rest = text.skip(at + 1);
        assert(text[at] == '\n');
        assert(rest[i - at - 1] == text[i]);
        let (line, column) = lemma_place_of(rest, i - at - 1);
        assert(lines(text)[line + 1] == lines(rest)[line]);
        (line + 1, column)
    }
}

/// Places come in the order of their lines and columns.
proof fn lemma_offset_order(text: Seq<char>, line: int, column: int, other: int, behind: int)
    requires
        0 <= line <= other < lines(text).len(),
        0 <= column <= lines(text)[line].len(),
        0 <= behind <= lines(text)[other].len(),
        line < other || column < behind,
    ensures
        offset(text, line, column) < offset(text, other, behind),
    decreases text.len(),
{
    lemma_line_break_bounds(text);
    let at = line_break(text) as int;
    if other > 0 {
        let rest = text.skip(at + 1);
        assert(at < text.len());
        assert(lines(text) == seq![without_return(text.take(at))] + lines(rest));
        assert(lines(text)[other] == lines(rest)[other - 1]);
        lemma_offset(rest, other - 1, behind);
        if line > 0 {
            assert(lines(text)[line] == lines(rest)[line - 1]);
            lemma_offset_order(rest, line - 1, column, other - 1, behind);
        }
    }
}

proof fn lemma_between_difference(
    all: Seq<Seq<char>>,
    from: int,
    start: int,
    line: int,
    column: int,
)
    requires
        0 <= from <= line < all.len(),
        0 <= start <= all[from].len(),
        0 <= column <= all[line].len(),
        line == from ==> start <= column,
    ensures
        open_braces_between(all, from, start, line, column) == open_braces_between(
            all,
            0,
            0,
            line,
            column,
        ) - open_braces_between(all, 0, 0, from, start),
    decreases line - from,
{
    assert(open_braces(Seq::<char>::empty()) == 0);
    if line > from {
        lemma_between_difference(all, from, start, line - 1, all[line - 1].len() as int);
    } else {
        let whole = all[line].take(column);
        let front = all[line].take(start);
        let part = all[line].subrange(start, column);
        assert(whole =~= front + part);
        lemma_open_braces_concat(front, part);
        assert(all[line].subrange(0, column) =~= whole);
        assert(all[line].subrange(0, start) =~= front);
        assert(start == column ==> part =~= Seq::<char>::empty());
        assert(column == 0 ==> whole =~= Seq::<char>::empty());
        assert(start == 0 ==> front =~= Seq::<char>::empty());
    }
}

/// Behind an opening brace, it stays open up to where a closing one leaves none open.
proof fn lemma_stays_open(text: Seq<char>, from: int, to: int)
    requires
        0 <= from < to <= text.len(),
        text[from] == '{',
        forall|i: int|
            from < i < to && #[trigger] text[i] == '}' ==> open_braces(text.subrange(from, i + 1))
                != 0,
    ensures
        open_braces(text.subrange(from, to)) >= 1,
    decreases to - from,
{
    let part = text.subrange(from, to);
    assert(part.last() == text[to - 1]);
    if to == from + 1 {
        assert(part.drop_last() =~= Seq::<char>::empty());
        assert(open_braces(part.drop_last()) == 0);
    } else {
        lemma_stays_open(text, from, to - 1);
        assert(part.drop_last() =~= text.subrange(from, to - 1));
        if text[to - 1] == '}' {
            assert(part =~= text.subrange(from, to - 1 + 1));
        }
    }
}

proof fn lemma_balance_in_text(text: Seq<char>, line: int, column: int, l: int, c: int)
    requires
        0 <= line < lines(text).len(),
        0 <= column < lines(text)[line].len(),
        line < l < lines(text).len() || (line == l && column <= c),
        0 <= c < lines(text)[l].len(),
    ensures
        offset(text, line, column) <= offset(text, l, c) < text.len(),
        open_braces(
            text.subrange(offset(text, line, column), offset(text, l, c) + 1),
        ) == open_braces_between(lines(text), line, column, l, c + 1),
{
    let all = lines(text);
    let from = offset(text, line, column);
    let to = offset(text, l, c);
    lemma_offset(text, line, column);
    lemma_offset(text, l, c);
    lemma_offset(text, l, c + 1);
    if line < l || column < c {
        lemma_offset_order(text, line, column, l, c);
    }
    lemma_offset_next(text, l, c);
    lemma_between_difference(all, line, column, l, c + 1);
    assert(text.take(to + 1) =~= text.take(from) + text.subrange(from, to + 1));
    lemma_open_braces_concat(text.take(from), text.subrange(from, to + 1));
}

proof fn lemma_offset_next(text: Seq<char>, line: int, column: int)
    ensures
        offset(text, line, column + 1) == offset(text, line, column) + 1,
    decreases line,
{
    if line > 0 {
        lemma_offset_next(text.skip(line_break(text) as int + 1), line - 1, column);
    }
}

/// In the text itself, an opening brace and the end of its block have as many opening
/// braces as closing ones between them, both included, and everywhere in between more
/// are opened than closed. Where no closing brace is such an end, more are opened than
/// closed up to the end of the text, and the block ends with the last byte of the last
/// line.
pub proof fn blocks_are_balanced(text: Seq<char>, line: int, column: int)
    requires
        0 <= line < lines(text).len(),
        0 <= column < lines(text)[line].len(),
        lines(text)[line][column] == '{',
    ensures
        ({
            let (l, c) = block_end_from(text, line, column);
            let from = offset(text, line, column);
            let to = offset(text, l, c);
            let last = lines(text)[lines(text).len() - 1];
            &&& 0 <= from < text.len()
            &&& text[from] == '{'
            &&& {
                ||| {
                    &&& 0 <= l < lines(text).len()
                    &&& 0 <= c < lines(text)[l].len()
                    &&& from < to < text.len()
                    &&& text[to] == '}'
                    &&& occurrences(text.subrange(from, to + 1), '{') == occurrences(
                        text.subrange(from, to + 1),
                        '}',
                    )
                    &&& forall|m: int|
                        from < m <= to ==> occurrences(#[trigger] text.subrange(from, m), '{')
                            > occurrences(text.subrange(from, m), '}')
                }
                ||| {
                    &&& l == lines(text).len() - 1
                    &&& c == if last.len() == 0 {
                        0
                    } else {
                        encode_utf8(last).len() - 1
                    }
                    &&& forall|m: int|
                        from < m <= text.len() ==> occurrences(
                            #[trigger] text.subrange(from, m),
                            '{',
                        ) > occurrences(text.subrange(from, m), '}')
                }
            }
        }),
{
    let all = lines(text);
    let (l, c) = block_end_from(text, line, column);
    let from = offset(text, line, column);
    let to = offset(text, l, c);
    lemma_offset(text, line, column);
    block_ends_at_matching_brace(text, line, column);
    let balanced = balances_at(all, line, column, l, c);
    assert forall|i: int|
        from < i < text.len() && #[trigger] text[i] == '}' && open_braces(
            text.subrange(from, i + 1),
        ) == 0 implies balanced && to <= i by {
        let (l2, c2) = lemma_place_of(text, i);
        if l2 < line || (l2 == line && c2 < column) {
            lemma_offset_order(text, l2, c2, line, column);
        }
        lemma_balance_in_text(text, line, column, l2, c2);
        lemma_offset(text, l2, c2);
        assert(balances_at(all, line, column, l2, c2));
        if l < l2 || (l == l2 && c < c2) {
            lemma_offset_order(text, l, c, l2, c2);
        }
    }
    if balanced {
        lemma_offset(text, l, c);
        lemma_balance_in_text(text, line, column, l, c);
        open_braces_are_those_not_closed(text.subrange(from, to + 1));
        assert forall|m: int| from < m <= to implies occurrences(
            #[trigger] text.subrange(from, m),
            '{',
        ) > occurrences(text.subrange(from, m), '}') by {
            lemma_stays_open(text, from, m);
            open_braces_are_those_not_closed(text.subrange(from, m));
        }
    } else {
        assert forall|m: int| from < m <= text.len() implies occurrences(
            #[trigger] text.subrange(from, m),
            '{',
        ) > occurrences(text.subrange(from, m), '}') by {
            lemma_stays_open(text, from, m);
            open_braces_are_those_not_closed(text.subrange(from, m));
        }
        let last = all.last();
        assert(encode_utf8(last).len() == 0 <==> last.len() == 0) by {
            if last.len() > 0 {
                vstd::utf8::char_is_scalar(last[0]);
            }
        }
    }
}

/// A text ends in its last line, at the byte that nothing follows, or at the beginning
/// of a line without bytes. A text without lines ends where it begins.
pub proof fn texts_end_in_their_last_line(text: Seq<char>)
    ensures
        lines(text).len() == 0 ==> last_place(lines(text)) == (0int, 0int),
        lines(text).len() > 0 ==> {
            let (line, byte) = last_place(lines(text));
            let last = encode_utf8(lines(text)[lines(text).len() - 1]);
            &&& line + 1 == lines(text).len()
            &&& last.len() > 0 ==> byte + 1 == last.len()
            &&& last.len() == 0 ==> byte == 0
        },
{
}

/// On a line without an opening brace, braces are counted from its beginning.
pub proof fn lines_without_opening_brace(text: Seq<char>, line: int)
    requires
        0 <= line,
        line < lines(text).len() ==> !lines(text)[line].contains('{'),
    ensures
        block_end(text, line) == block_end_from(text, line, 0),
{
    if line < lines(text).len() {
        lemma_no_opening_brace(lines(text)[line], 0);
    }
}

proof fn lemma_no_opening_brace(line: Seq<char>, column: int)
    requires
        0 <= column,
        !line.contains('{'),
    ensures
        opening_brace(line, column) is None,
    decreases line.len() - column,
{
    if column < line.len() {
        assert(line.contains(line[column]));
        lemma_no_opening_brace(line, column + 1);
    }
}

proof fn lemma_total_length_take(some: Seq<Seq<char>>, count: int)
    requires
        0 <= count <= some.len(),
    ensures
        total_length(some.take(count)) <= total_length(some),
        count < some.len() ==> total_length(some.take(count)) + some[count].len() <= total_length(
            some,
        ),
    decreases some.len(),
{
    if count == some.len() {
        assert(some.take(count) =~= some);
    } else {
        let front = some.drop_last();
        if count == some.len() - 1 {
            assert(some.take(count) =~= front);
        } else {
            assert(some.take(count) =~= front.take(count));
            lemma_total_length_take(front, count);
        }
    }
}

/// Finds the position (0-indexed) of the closing `}` that matches the `{` at a line and
/// column.
pub fn find_block_end_from(text: &str, line: usize, column: usize) -> (place: (usize, usize))
    ensures
        (place.0 as int, place.1 as int) == block_end_from(text@, line as int, column as int),
{
    let all = split_lines(text);
    let ghost views = lines(text@);
    assert(views.len() == all@.len());
    proof {
        lemma_lines_length(text@);
    }
    let size: usize = text.unicode_len();
    let mut depth: i128 = 0;
    let mut i: usize = line;
    let mut from: usize = column;
    if line <= all.len() {
        while i < all.len()
            invariant
                views == lines(text@),
                all.deep_view() == views,
                all@.len() == views.len(),
                line <= i <= all@.len(),
                total_length(views) <= size,
                -total_length(views.take(i as int)) <= depth <= total_length(views.take(i as int)),
                close_from(views, line as int, column as int, 0) == close_from(
                    views,
                    i as int,
                    from as int,
                    depth as int,
                ),
            decreases all@.len() - i,
        {
            assert(views[i as int] == all@[i as int]@);
            proof {
                lemma_total_length_take(views, i as int);
            }
            let ghost before = total_length(views.take(i as int)) as int;
            let ghost at_start = depth as int;
            let chars = chars_of(all[i].as_str());
            let mut j: usize = if from < chars.len() {
                from
            } else {
                chars.len()
            };
            while j < chars.len()
                invariant
                    i < all@.len(),
                    all@.len() == views.len(),
                    views == lines(text@),
                    chars@ == views[i as int],
                    j <= chars@.len(),
                    before + chars@.len() <= size,
                    0 <= before,
                    -before - j <= depth <= before + j,
                    close_from(views, line as int, column as int, 0) == close_from(
                        views,
                        i as int,
                        from as int,
                        at_start,
                    ),
                    close_in_line(chars@, from as int, at_start) == close_in_line(
                        chars@,
                        j as int,
                        depth as int,
                    ),
                decreases chars@.len() - j,
            {
                let c = chars[j];
                if c == '{' {
                    depth += 1;
                } else if c == '}' {
                    depth -= 1;
                    if depth == 0 {
                        return (i, j);
                    }
                }
                j += 1;
            }
            assert(views.take(i + 1).drop_last() =~= views.take(i as int));
            i += 1;
            from = 0;
        }
    }
    assert(close_from(views, line as int, column as int, 0) is None);
    if all.len() == 0 {
        (0, 0)
    } else {
        let last: usize = all.len() - 1;
        assert(views.last() == all@[last as int]@);
        let bytes: usize = byte_length(all[last].as_str());
        (
            last,
            if bytes == 0 {
                0
            } else {
                bytes - 1
            },
        )
    }
}

/// Finds the position (0-indexed) of the closing `}` that matches the `{` at
/// `open_brace_line`.
pub fn find_block_end_pos(text: &str, open_brace_line: usize) -> (place: (usize, usize))
    ensures
        (place.0 as int, place.1 as int) == block_end(text@, open_brace_line as int),
{
    let all = split_lines(text);
    let ghost views = lines(text@);
    assert(views.len() == all@.len());
    let mut column: usize = 0;
    if open_brace_line < all.len() {
        assert(views[open_brace_line as int] == all@[open_brace_line as int]@);
        let chars = chars_of(all[open_brace_line].as_str());
        while column < chars.len() && chars[column] != '{'
            invariant
                column <= chars@.len(),
                opening_brace(chars@, 0) == opening_brace(chars@, column as int),
            decreases chars@.len() - column,
        {
            column += 1;
        }
        if column == chars.len() {
            column = 0;
        }
    }
    find_block_end_from(text, open_brace_line, column)
}

// ---------------------------------------------------------------------------
// The context of the cursor

/// A line or column counted from one, counted from zero instead.
pub open spec fn zero_based(number: usize) -> int {
    if number == 0 {
        0
    } else {
        number - 1
    }
}

/// Whether a place is in the block whose opening brace is at `brace`: at that brace or
/// behind it, and not behind the end of the block.
pub open spec fn in_block(text: Seq<char>, brace: Place, line: int, column: int) -> bool {
    let begin = (zero_based(brace.line), zero_based(brace.column));
    let end = block_end_from(text, begin.0, begin.1);
    &&& line > begin.0 || (line == begin.0 && column >= begin.1)
    &&& line < end.0 || (line == end.0 && column <= end.1)
}

/// Whether the cursor is in the block that a statement holds. A statement that begins
/// below the cursor's line does not hold it.
pub open spec fn holds_cursor(statement: StmtView, text: Seq<char>, line: int, column: int) -> bool {
    match statement.block() {
        Some(block) => zero_based(statement.span().line) <= line && in_block(
            text,
            block.span,
            line,
            column,
        ),
        None => false,
    }
}

/// The context in the block that a statement holds, if the statement stands in the
/// context `current`.
pub open spec fn entered(
    statement: StmtView,
    current: ContextView,
    sections: Seq<SectionView>,
) -> ContextView {
    match statement {
        StmtView::HostBlock { hosts, .. } => ContextView::HostBlock {
            protocol: if hosts.len() > 0 {
                hosts[0]
            } else {
                None
            },
        },
        StmtView::GlobalBlock { .. } => ContextView::GlobalBlock,
        StmtView::SnippetBlock { name, .. } => ContextView::SnippetBlock { name },
        StmtView::Directive { name, .. } => ContextView::DirectiveBlock {
            name,
            subblock_link: link_in_context(name, current, sections),
            parent: Box::new(current),
        },
        _ => current,
    }
}

/// The context of the cursor among some statements that stand in the context
/// `current`: that in the block of the last statement whose block the cursor is in.
pub open spec fn context_among(
    statements: Seq<StmtView>,
    text: Seq<char>,
    line: int,
    column: int,
    current: ContextView,
    sections: Seq<SectionView>,
) -> ContextView
    decreases statements,
{
    if statements.len() == 0 {
        current
    } else if holds_cursor(statements.last(), text, line, column) {
        context_within(statements[statements.len() - 1], text, line, column, current, sections)
    } else {
        context_among(
            statements.subrange(0, statements.len() - 1),
            text,
            line,
            column,
            current,
            sections,
        )
    }
}

/// The context of the cursor in the block that a statement holds.
pub open spec fn context_within(
    statement: StmtView,
    text: Seq<char>,
    line: int,
    column: int,
    current: ContextView,
    sections: Seq<SectionView>,
) -> ContextView
    decreases statement,
{
    let inner = entered(statement, current, sections);
    match statement {
        StmtView::HostBlock { block, .. } => context_among(
            block.statements,
            text,
            line,
            column,
            inner,
            sections,
        ),
        StmtView::GlobalBlock { block } => context_among(
            block.statements,
            text,
            line,
            column,
            inner,
            sections,
        ),
        StmtView::SnippetBlock { block, .. } => context_among(
            block.statements,
            text,
            line,
            column,
            inner,
            sections,
        ),
        StmtView::Directive { body: Some(block), .. } => context_among(
            block.statements,
            text,
            line,
            column,
            inner,
            sections,
        ),
        _ => current,
    }
}

/// The context of the cursor in a parsed file.
pub open spec fn context_at(
    statements: Seq<StmtView>,
    text: Seq<char>,
    position: Position,
    sections: Seq<SectionView>,
) -> ContextView {
    context_among(
        statements,
        text,
        position.line as int,
        position.character as int,
        ContextView::TopLevel,
        sections,
    )
}

/// The context of the cursor in a file, by how the file was parsed. In a file that
/// cannot be parsed it is outside of all blocks.
pub open spec fn context_after(
    parsed: Result<Seq<StmtView>, SyntaxErrorView>,
    text: Seq<char>,
    position: Position,
    sections: Seq<SectionView>,
) -> ContextView {
    match parsed {
        Ok(statements) => context_at(statements, text, position, sections),
        Err(_) => ContextView::TopLevel,
    }
}

proof fn lemma_blocks_are_not_left(
    statements: Seq<StmtView>,
    text: Seq<char>,
    line: int,
    column: int,
    current: ContextView,
    sections: Seq<SectionView>,
)
    requires
        current !is TopLevel,
    ensures
        context_among(statements, text, line, column, current, sections) !is TopLevel,
    decreases statements,
{
    if statements.len() > 0 {
        let last = statements[statements.len() - 1];
        if holds_cursor(last, text, line, column) {
            let inner = entered(last, current, sections);
            match last {
                StmtView::HostBlock { block, .. } => {
                    lemma_blocks_are_not_left(block.statements, text, line, column, inner, sections);
                },
                StmtView::GlobalBlock { block } => {
                    lemma_blocks_are_not_left(block.statements, text, line, column, inner, sections);
                },
                StmtView::SnippetBlock { block, .. } => {
                    lemma_blocks_are_not_left(block.statements, text, line, column, inner, sections);
                },
                StmtView::Directive { body: Some(block), .. } => {
                    lemma_blocks_are_not_left(block.statements, text, line, column, inner, sections);
                },
                _ => {},
            }
            assert(context_within(last, text, line, column, current, sections) !is TopLevel);
        } else {
            lemma_blocks_are_not_left(
                statements.subrange(0, statements.len() - 1),
                text,
                line,
                column,
                current,
                sections,
            );
        }
    }
}

proof fn lemma_top_level(
    statements: Seq<StmtView>,
    text: Seq<char>,
    line: int,
    column: int,
    sections: Seq<SectionView>,
)
    ensures
        context_among(statements, text, line, column, ContextView::TopLevel, sections) is TopLevel
            <==> forall|k: int|
            0 <= k < statements.len() ==> !holds_cursor(
                #[trigger] statements[k],
                text,
                line,
                column,
            ),
    decreases statements.len(),
{
    let top = ContextView::TopLevel;
    if statements.len() > 0 {
        let last = statements[statements.len() - 1];
        let front = statements.subrange(0, statements.len() - 1);
        if holds_cursor(last, text, line, column) {
            let inner = entered(last, top, sections);
            match last {
                StmtView::HostBlock { block, .. } => {
                    lemma_blocks_are_not_left(block.statements, text, line, column, inner, sections);
                },
                StmtView::GlobalBlock { block } => {
                    lemma_blocks_are_not_left(block.statements, text, line, column, inner, sections);
                },
                StmtView::SnippetBlock { block, .. } => {
                    lemma_blocks_are_not_left(block.statements, text, line, column, inner, sections);
                },
                StmtView::Directive { body: Some(block), .. } => {
                    lemma_blocks_are_not_left(block.statements, text, line, column, inner, sections);
                },
                _ => {},
            }
            assert(context_within(last, text, line, column, top, sections) !is TopLevel);
        } else {
            lemma_top_level(front, text, line, column, sections);
            assert forall|k: int|
                0 <= k < statements.len() && (forall|j: int|
                    0 <= j < front.len() ==> !holds_cursor(
                        #[trigger] front[j],
                        text,
                        line,
                        column,
                    )) implies !holds_cursor(#[trigger] statements[k], text, line, column) by {
                if k < front.len() {
                    assert(front[k] == statements[k]);
                }
            }
            assert forall|j: int|
                0 <= j < front.len() && (forall|k: int|
                    0 <= k < statements.len() ==> !holds_cursor(
                        #[trigger] statements[k],
                        text,
                        line,
                        column,
                    )) implies !holds_cursor(#[trigger] front[j], text, line, column) by {
                assert(front[j] == statements[j]);
            }
        }
    }
}

/// The cursor is outside of all blocks exactly where no statement of the file holds
/// it in its block.
pub proof fn top_level_is_outside_of_all_blocks(
    statements: Seq<StmtView>,
    text: Seq<char>,
    position: Position,
    sections: Seq<SectionView>,
)
    ensures
        context_at(statements, text, position, sections) is TopLevel <==> forall|k: int|
            0 <= k < statements.len() ==> !holds_cursor(
                #[trigger] statements[k],
                text,
                position.line as int,
                position.character as int,
            ),
{
    lemma_top_level(
        statements,
        text,
        position.line as int,
        position.character as int,
        sections,
    );
}

/// Whether every directive in a chain of blocks links to the section that the
/// registry gives it in the block around it.
pub open spec fn links_resolved(context: ContextView, sections: Seq<SectionView>) -> bool
    decreases context,
{
    match context {
        ContextView::DirectiveBlock { name, subblock_link, parent } => {
            &&& subblock_link == link_in_context(name, *parent, sections)
            &&& links_resolved(*parent, sections)
        },
        _ => true,
    }
}

proof fn lemma_links_resolved(
    statements: Seq<StmtView>,
    text: Seq<char>,
    line: int,
    column: int,
    current: ContextView,
    sections: Seq<SectionView>,
)
    requires
        links_resolved(current, sections),
    ensures
        links_resolved(
            context_among(statements, text, line, column, current, sections),
            sections,
        ),
    decreases statements,
{
    if statements.len() > 0 {
        let last = statements[statements.len() - 1];
        if holds_cursor(last, text, line, column) {
            let inner = entered(last, current, sections);
            assert(links_resolved(inner, sections));
            match last {
                StmtView::HostBlock { block, .. } => {
                    lemma_links_resolved(block.statements, text, line, column, inner, sections);
                },
                StmtView::GlobalBlock { block } => {
                    lemma_links_resolved(block.statements, text, line, column, inner, sections);
                },
                StmtView::SnippetBlock { block, .. } => {
                    lemma_links_resolved(block.statements, text, line, column, inner, sections);
                },
                StmtView::Directive { body: Some(block), .. } => {
                    lemma_links_resolved(block.statements, text, line, column, inner, sections);
                },
                _ => {},
            }
            assert(links_resolved(
                context_within(last, text, line, column, current, sections),
                sections,
            ));
        } else {
            lemma_links_resolved(
                statements.subrange(0, statements.len() - 1),
                text,
                line,
                column,
                current,
                sections,
            );
        }
    }
}

/// In the chain of blocks down to the cursor, every directive links to the section
/// that the registry gives it in the block around it.
pub proof fn context_follows_the_registry(
    statements: Seq<StmtView>,
    text: Seq<char>,
    position: Position,
    sections: Seq<SectionView>,
)
    ensures
        links_resolved(context_at(statements, text, position, sections), sections),
{
    lemma_links_resolved(
        statements,
        text,
        position.line as int,
        position.character as int,
        ContextView::TopLevel,
        sections,
    );
}

/// The statements that stand directly in the block of a statement.
pub open spec fn statements_within(statement: StmtView) -> Seq<StmtView> {
    match statement {
        StmtView::Directive { body: Some(body), .. } => body.statements,
        StmtView::HostBlock { block, .. } => block.statements,
        StmtView::GlobalBlock { block } => block.statements,
        StmtView::SnippetBlock { block, .. } => block.statements,
        _ => Seq::empty(),
    }
}

/// The cursor is in the block of a statement from its opening brace up to its end, and
/// in no block that a statement does not have. A block is at the place of its opening
/// brace, which is counted from one; a zero counts as one.
pub proof fn blocks_hold_what_is_between_their_braces(
    statement: StmtView,
    text: Seq<char>,
    line: int,
    column: int,
    begin: Place,
    brace: Place,
)
    requires
        match statement {
            StmtView::Directive { body: Some(body), span, .. } => begin == span && brace
                == body.span,
            StmtView::HostBlock { block, span, .. } => begin == span && brace == block.span,
            StmtView::GlobalBlock { block } => begin == block.span && brace == block.span,
            StmtView::SnippetBlock { block, span, .. } => begin == span && brace == block.span,
            _ => true,
        },
    ensures
        match statement {
            StmtView::Directive { body: None, .. } | StmtView::MatchBlock { .. }
            | StmtView::Comment { .. } => !holds_cursor(statement, text, line, column),
            _ => {
                let brace_line = if brace.line >= 1 {
                    brace.line as int
                } else {
                    1
                };
                let brace_column = if brace.column >= 1 {
                    brace.column as int
                } else {
                    1
                };
                let (end, at) = block_end_from(text, brace_line - 1, brace_column - 1);
                holds_cursor(statement, text, line, column) <==> {
                    &&& begin.line <= line + 1 && 0 <= line
                    &&& brace_line < line + 1 || (brace_line == line + 1 && brace_column <= column
                        + 1)
                    &&& line < end || (line == end && column <= at)
                }
            },
        },
{
}

/// Whether a statement is the last of some statements whose block the cursor is in.
pub open spec fn last_to_hold(
    statements: Seq<StmtView>,
    statement: StmtView,
    text: Seq<char>,
    line: int,
    column: int,
) -> bool {
    exists|k: int|
        {
            &&& 0 <= k < statements.len()
            &&& #[trigger] statements[k] == statement
            &&& holds_cursor(statement, text, line, column)
            &&& forall|j: int|
                k < j < statements.len() ==> !holds_cursor(
                    #[trigger] statements[j],
                    text,
                    line,
                    column,
                )
        }
}

/// Whether the cursor is in the block of none of some statements.
pub open spec fn none_holds(
    statements: Seq<StmtView>,
    text: Seq<char>,
    line: int,
    column: int,
) -> bool {
    forall|k: int|
        0 <= k < statements.len() ==> !holds_cursor(#[trigger] statements[k], text, line, column)
}

/// The statements among which the one at a depth of a chain of blocks stands.
pub open spec fn level(statements: Seq<StmtView>, chain: Seq<StmtView>, depth: int) -> Seq<
    StmtView,
> {
    if depth == 0 {
        statements
    } else {
        statements_within(chain[depth - 1])
    }
}

/// Whether a chain of statements, each directly in the block of the one before, leads
/// down to the innermost block around the cursor.
pub open spec fn leads_to_cursor(
    statements: Seq<StmtView>,
    chain: Seq<StmtView>,
    text: Seq<char>,
    line: int,
    column: int,
) -> bool {
    &&& forall|depth: int|
        0 <= depth < chain.len() ==> last_to_hold(
            level(statements, chain, depth),
            #[trigger] chain[depth],
            text,
            line,
            column,
        )
    &&& none_holds(level(statements, chain, chain.len() as int), text, line, column)
}

/// The context that is reached when the blocks of a chain are entered one by one. The
/// block of a host, of a snippet and the global block begin a new context; the block of
/// a directive is in the context around it, and has the section that the directive
/// links to there.
pub open spec fn context_down(
    chain: Seq<StmtView>,
    current: ContextView,
    sections: Seq<SectionView>,
) -> ContextView
    decreases chain.len(),
{
    if chain.len() == 0 {
        current
    } else {
        let around = context_down(chain.drop_last(), current, sections);
        match chain.last() {
            StmtView::Directive { name, .. } => ContextView::DirectiveBlock {
                name,
                subblock_link: link_in_context(name, around, sections),
                parent: Box::new(around),
            },
            StmtView::HostBlock { hosts, .. } => ContextView::HostBlock {
                protocol: if hosts.len() == 0 {
                    None
                } else {
                    hosts[0]
                },
            },
            StmtView::SnippetBlock { name, .. } => ContextView::SnippetBlock { name },
            StmtView::GlobalBlock { .. } => ContextView::GlobalBlock,
            _ => around,
        }
    }
}

proof fn lemma_context_down(
    first: StmtView,
    rest: Seq<StmtView>,
    current: ContextView,
    sections: Seq<SectionView>,
)
    requires
        first.block() is Some,
    ensures
        context_down(seq![first] + rest, current, sections) == context_down(
            rest,
            entered(first, current, sections),
            sections,
        ),
    decreases rest.len(),
{
    let chain = seq![first] + rest;
    if rest.len() == 0 {
        assert(chain.drop_last() =~= Seq::<StmtView>::empty());
        assert(chain.last() == first);
        assert(context_down(chain.drop_last(), current, sections) == current);
    } else {
        assert(chain.drop_last() =~= seq![first] + rest.drop_last());
        assert(chain.last() == rest.last());
        lemma_context_down(first, rest.drop_last(), current, sections);
    }
}

proof fn lemma_last_to_hold(
    statements: Seq<StmtView>,
    k: int,
    text: Seq<char>,
    line: int,
    column: int,
    current: ContextView,
    sections: Seq<SectionView>,
)
    requires
        -1 <= k < statements.len(),
        k >= 0 ==> holds_cursor(statements[k], text, line, column),
        forall|j: int|
            k < j < statements.len() ==> !holds_cursor(
                #[trigger] statements[j],
                text,
                line,
                column,
            ),
    ensures
        context_among(statements, text, line, column, current, sections) == if k < 0 {
            current
        } else {
            context_within(statements[k], text, line, column, current, sections)
        },
    decreases statements.len(),
{
    if statements.len() > 0 && k < statements.len() - 1 {
        let front = statements.subrange(0, statements.len() - 1);
        assert(!holds_cursor(statements[statements.len() - 1], text, line, column));
        assert forall|j: int| k < j < front.len() implies !holds_cursor(
            #[trigger] front[j],
            text,
            line,
            column,
        ) by {
            assert(front[j] == statements[j]);
        }
        lemma_last_to_hold(front, k, text, line, column, current, sections);
    }
}

/// The context of the cursor is that of the innermost block around it: whenever a chain
/// of statements, each directly in the block of the one before, leads down to the
/// cursor, and no statement directly in the last block holds it, the context is what is
/// reached by entering those blocks, all of them.
pub proof fn innermost_block_counts(
    statements: Seq<StmtView>,
    chain: Seq<StmtView>,
    text: Seq<char>,
    line: int,
    column: int,
    current: ContextView,
    sections: Seq<SectionView>,
)
    requires
        leads_to_cursor(statements, chain, text, line, column),
    ensures
        context_among(statements, text, line, column, current, sections) == context_down(
            chain,
            current,
            sections,
        ),
    decreases chain.len(),
{
    if chain.len() == 0 {
        lemma_last_to_hold(statements, -1, text, line, column, current, sections);
    } else {
        let first = chain[0];
        let rest = chain.skip(1);
        let inner = statements_within(first);
        assert(last_to_hold(level(statements, chain, 0), chain[0], text, line, column));
        let k = choose|k: int|
            {
                &&& 0 <= k < statements.len()
                &&& #[trigger] statements[k] == first
                &&& holds_cursor(first, text, line, column)
                &&& forall|j: int|
                    k < j < statements.len() ==> !holds_cursor(
                        #[trigger] statements[j],
                        text,
                        line,
                        column,
                    )
            };
        lemma_last_to_hold(statements, k, text, line, column, current, sections);
        assert forall|depth: int| 0 <= depth < rest.len() implies last_to_hold(
            level(inner, rest, depth),
            #[trigger] rest[depth],
            text,
            line,
            column,
        ) by {
            assert(chain[depth + 1] == rest[depth]);
            assert(last_to_hold(
                level(statements, chain, depth + 1),
                chain[depth + 1],
                text,
                line,
                column,
            ));
            assert(level(statements, chain, depth + 1) == level(inner, rest, depth));
        }
        assert(level(statements, chain, chain.len() as int) == level(
            inner,
            rest,
            rest.len() as int,
        ));
        innermost_block_counts(
            inner,
            rest,
            text,
            line,
            column,
            entered(first, current, sections),
            sections,
        );
        lemma_context_down(first, rest, current, sections);
        assert(seq![first] + rest =~= chain);
    }
}

proof fn lemma_chain(statements: Seq<StmtView>, text: Seq<char>, line: int, column: int) -> (chain:
    Seq<StmtView>)
    ensures
        leads_to_cursor(statements, chain, text, line, column),
    decreases statements,
{
    if statements.len() == 0 {
        Seq::empty()
    } else {
        let last = statements[statements.len() - 1];
        if holds_cursor(last, text, line, column) {
            let rest = match last {
                StmtView::HostBlock { block, .. } => lemma_chain(
                    block.statements,
                    text,
                    line,
                    column,
                ),
                StmtView::GlobalBlock { block } => lemma_chain(
                    block.statements,
                    text,
                    line,
                    column,
                ),
                StmtView::SnippetBlock { block, .. } => lemma_chain(
                    block.statements,
                    text,
                    line,
                    column,
                ),
                StmtView::Directive { body: Some(block), .. } => lemma_chain(
                    block.statements,
                    text,
                    line,
                    column,
                ),
                _ => Seq::empty(),
            };
            let inner = statements_within(last);
            let chain = seq![last] + rest;
            assert forall|depth: int| 0 <= depth < chain.len() implies last_to_hold(
                level(statements, chain, depth),
                #[trigger] chain[depth],
                text,
                line,
                column,
            ) by {
                if depth == 0 {
                    assert(statements[statements.len() - 1] == chain[0]);
                } else {
                    assert(chain[depth] == rest[depth - 1]);
                    assert(level(statements, chain, depth) == level(inner, rest, depth - 1));
                }
            }
            assert(level(statements, chain, chain.len() as int) == level(
                inner,
                rest,
                rest.len() as int,
            ));
            chain
        } else {
            let front = statements.subrange(0, statements.len() - 1);
            let chain = lemma_chain(front, text, line, column);
            if chain.len() == 0 {
                assert forall|k: int| 0 <= k < statements.len() implies !holds_cursor(
                    #[trigger] statements[k],
                    text,
                    line,
                    column,
                ) by {
                    if k < front.len() {
                        assert(front[k] == statements[k]);
                    }
                }
            } else {
                assert(last_to_hold(level(front, chain, 0), chain[0], text, line, column));
                let k = choose|k: int|
                    {
                        &&& 0 <= k < front.len()
                        &&& #[trigger] front[k] == chain[0]
                        &&& holds_cursor(chain[0], text, line, column)
                        &&& forall|j: int|
                            k < j < front.len() ==> !holds_cursor(
                                #[trigger] front[j],
                                text,
                                line,
                                column,
                            )
                    };
                assert(statements[k] == chain[0]);
                assert forall|j: int| k < j < statements.len() implies !holds_cursor(
                    #[trigger] statements[j],
                    text,
                    line,
                    column,
                ) by {
                    if j < front.len() {
                        assert(front[j] == statements[j]);
                    }
                }
                assert forall|depth: int| 0 <= depth < chain.len() implies last_to_hold(
                    level(statements, chain, depth),
                    #[trigger] chain[depth],
                    text,
                    line,
                    column,
                ) by {
                    if depth > 0 {
                        assert(last_to_hold(
                            level(front, chain, depth),
                            chain[depth],
                            text,
                            line,
                            column,
                        ));
                    }
                }
                assert(level(statements, chain, chain.len() as int) == level(
                    front,
                    chain,
                    chain.len() as int,
                ));
            }
            chain
        }
    }
}

/// Wherever the cursor is in a parsed file, some chain of blocks leads down to it, and
/// gives its context. In a file that cannot be parsed the cursor is in no block.
pub proof fn every_cursor_has_an_innermost_block(
    parsed: Result<Seq<StmtView>, SyntaxErrorView>,
    text: Seq<char>,
    position: Position,
    sections: Seq<SectionView>,
)
    ensures
        parsed is Err ==> context_after(parsed, text, position, sections) is TopLevel,
        parsed matches Ok(statements) ==> exists|chain: Seq<StmtView>|
            {
                &&& #[trigger] leads_to_cursor(
                    statements,
                    chain,
                    text,
                    position.line as int,
                    position.character as int,
                )
                &&& context_after(parsed, text, position, sections) == context_down(
                    chain,
                    ContextView::TopLevel,
                    sections,
                )
            },
{
    if let Ok(statements) = parsed {
        let line = position.line as int;
        let column = position.character as int;
        let chain = lemma_chain(statements, text, line, column);
        innermost_block_counts(
            statements,
            chain,
            text,
            line,
            column,
            ContextView::TopLevel,
            sections,
        );
    }
}

/// Whether the cursor is in the block of a statement that begins on the line `begin`
/// and whose opening brace is at `brace`.
fn cursor_in_block(
    text: &str,
    begin: usize,
    brace: &Place,
    cursor_line: usize,
    cursor_col: usize,
) -> (inside: bool)
    ensures
        inside == (begin <= cursor_line && in_block(
            text@,
            *brace,
            cursor_line as int,
            cursor_col as int,
        )),
{
    let brace_line: usize = brace.line.saturating_sub(1);
    let brace_col: usize = brace.column.saturating_sub(1);
    let (end_line, end_col) = find_block_end_from(text, brace_line, brace_col);
    begin <= cursor_line && (cursor_line > brace_line || (cursor_line == brace_line && cursor_col
        >= brace_col)) && (cursor_line < end_line || (cursor_line == end_line && cursor_col
        <= end_col))
}

/// Determines the block context of the cursor among some statements that stand in
/// the context `current`.
pub fn context_for_statements(
    statements: &Vec<Stmt>,
    text: &str,
    cursor_line: usize,
    cursor_col: usize,
    current: BlockContext,
    registry: &DirectiveRegistry,
) -> (context: BlockContext)
    ensures
        context@ == context_among(
            statement_views(statements@),
            text@,
            cursor_line as int,
            cursor_col as int,
            current@,
            registry@,
        ),
    decreases *statements,
{
    let ghost views = statement_views(statements@);
    let ghost whole = context_among(
        views,
        text@,
        cursor_line as int,
        cursor_col as int,
        current@,
        registry@,
    );
    let mut i: usize = statements.len();
    assert(views.subrange(0, i as int) =~= views);
    while i > 0
        invariant
            i <= statements@.len(),
            views == statement_views(statements@),
            whole == context_among(
                views,
                text@,
                cursor_line as int,
                cursor_col as int,
                current@,
                registry@,
            ),
            whole == context_among(
                views.subrange(0, i as int),
                text@,
                cursor_line as int,
                cursor_col as int,
                current@,
                registry@,
            ),
        decreases i,
    {
        let statement = &statements[i - 1];
        let ghost front = views.subrange(0, i as int);
        assert(front.last() == statement_view(*statement));
        assert(front.subrange(0, front.len() - 1) =~= views.subrange(0, i - 1));
        assert(holds_cursor(front.last(), text@, cursor_line as int, cursor_col as int) ==> whole
            == context_within(
            statement_view(*statement),
            text@,
            cursor_line as int,
            cursor_col as int,
            current@,
            registry@,
        ));
        let begin: usize = statement.span().line.saturating_sub(1);
        match statement {
            Stmt::HostBlock { hosts, block, .. } => {
                if cursor_in_block(text, begin, &block.span, cursor_line, cursor_col) {
                    let protocol = if hosts.len() > 0 {
                        clone_optional(&hosts[0].protocol)
                    } else {
                        None
                    };
                    return context_for_statements(
                        &block.statements,
                        text,
                        cursor_line,
                        cursor_col,
                        BlockContext::HostBlock { protocol },
                        registry,
                    );
                }
            },
            Stmt::GlobalBlock { block } => {
                if cursor_in_block(text, begin, &block.span, cursor_line, cursor_col) {
                    return context_for_statements(
                        &block.statements,
                        text,
                        cursor_line,
                        cursor_col,
                        BlockContext::GlobalBlock,
                        registry,
                    );
                }
            },
            Stmt::SnippetBlock { name, block, .. } => {
                if cursor_in_block(text, begin, &block.span, cursor_line, cursor_col) {
                    return context_for_statements(
                        &block.statements,
                        text,
                        cursor_line,
                        cursor_col,
                        BlockContext::SnippetBlock { name: name.clone() },
                        registry,
                    );
                }
            },
            Stmt::Directive { name, body, .. } => {
                if let Some(block) = body {
                    if cursor_in_block(text, begin, &block.span, cursor_line, cursor_col) {
                        let subblock_link = resolve_subblock_link(
                            name.as_str(),
                            &current,
                            registry,
                        );
                        let inner = BlockContext::DirectiveBlock {
                            name: name.clone(),
                            subblock_link,
                            parent: Box::new(current),
                        };
                        return context_for_statements(
                            &block.statements,
                            text,
                            cursor_line,
                            cursor_col,
                            inner,
                            registry,
                        );
                    }
                }
            },
            _ => {},
        }
        i -= 1;
    }
    current
}

/// Determines the block context at the given cursor position using the parsed
/// statements.
pub fn find_context_at_position(
    statements: &Vec<Stmt>,
    text: &str,
    position: Position,
    registry: &DirectiveRegistry,
) -> (context: BlockContext)
    ensures
        context@ == context_at(statement_views(statements@), text@, position, registry@),
{
    context_for_statements(
        statements,
        text,
        position.line as usize,
        position.character as usize,
        BlockContext::TopLevel,
        registry,
    )
}

/// Determines the block context at the given cursor position, by how the file was
/// parsed.
pub fn context_of(
    parsed: &Result<Vec<Stmt>, SyntaxError>,
    text: &str,
    position: Position,
    registry: &DirectiveRegistry,
) -> (context: BlockContext)
    ensures
        context@ == context_after(parse_outcome(*parsed), text@, position, registry@),
{
    match parsed {
        Ok(statements) => find_context_at_position(statements, text, position, registry),
        Err(_) => BlockContext::TopLevel,
    }
}

} // verus!
