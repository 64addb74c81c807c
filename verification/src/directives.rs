//! What the `ferron` program tells of itself: the directives it knows, and what
//! its doctor finds in a configuration file.

use vstd::prelude::*;
use vstd::utf8::{decode_utf8, valid_utf8};

use crate::text::{same_text, trim, trimmed};
use crate::unicode::{lossy_text, read_lossy};

verus! {

// ---------------------------------------------------------------------------
// Directives

/// A directive that may stand in a configuration file.
#[derive(Debug, PartialEq, Eq)]
pub struct DirectiveEntry {
    pub name: String,
    pub usage: String,
    pub description: String,
    /// The protocols of the host blocks that the directive may stand in, where it
    /// may not stand in all.
    pub applicable_protocols: Option<Vec<String>>,
    /// Whether the directive stands in global blocks only.
    pub global_only: bool,
    /// The section with the directives that may stand in this directive's block.
    pub subblock_link: Option<String>,
}

/// What a [`DirectiveEntry`] stands for.
pub struct EntryView {
    pub name: Seq<char>,
    pub usage: Seq<char>,
    pub description: Seq<char>,
    pub applicable_protocols: Option<Seq<Seq<char>>>,
    pub global_only: bool,
    pub subblock_link: Option<Seq<char>>,
}

impl View for DirectiveEntry {
    type V = EntryView;

    open spec fn view(&self) -> EntryView {
        EntryView {
            name: self.name@,
            usage: self.usage@,
            description: self.description@,
            applicable_protocols: self.applicable_protocols.deep_view(),
            global_only: self.global_only,
            subblock_link: self.subblock_link.deep_view(),
        }
    }
}

impl DeepView for DirectiveEntry {
    type V = EntryView;

    open spec fn deep_view(&self) -> EntryView {
        self@
    }
}

impl Clone for DirectiveEntry {
    fn clone(&self) -> (copy: Self)
        ensures
            copy@ == self@,
    {
        let applicable_protocols = match &self.applicable_protocols {
            Some(protocols) => Some(clone_texts(protocols)),
            None => None,
        };
        DirectiveEntry {
            name: self.name.clone(),
            usage: self.usage.clone(),
            description: self.description.clone(),
            applicable_protocols,
            global_only: self.global_only,
            subblock_link: clone_optional(&self.subblock_link),
        }
    }
}

/// A copy of some texts.
pub(crate) fn clone_texts(texts: &Vec<String>) -> (copy: Vec<String>)
    ensures
        copy.deep_view() == texts.deep_view(),
{
    let mut copy: Vec<String> = Vec::new();
    let mut i: usize = 0;
    while i < texts.len()
        invariant
            i <= texts@.len(),
            copy@.len() == i,
            forall|k: int| 0 <= k < i ==> copy@[k]@ == texts@[k]@,
        decreases texts@.len() - i,
    {
        copy.push(texts[i].clone());
        i += 1;
    }
    assert(copy.deep_view() =~= texts.deep_view());
    copy
}

/// A copy of a text that may be missing.
pub(crate) fn clone_optional(text: &Option<String>) -> (copy: Option<String>)
    ensures
        copy.deep_view() == text.deep_view(),
{
    match text {
        Some(t) => Some(t.clone()),
        None => None,
    }
}

/// Directives that may stand in the same place, under a name.
#[derive(Debug, PartialEq, Eq)]
pub struct Section {
    pub name: String,
    pub entries: Vec<DirectiveEntry>,
}

/// What a [`Section`] stands for.
pub struct SectionView {
    pub name: Seq<char>,
    pub entries: Seq<EntryView>,
}

impl View for Section {
    type V = SectionView;

    open spec fn view(&self) -> SectionView {
        SectionView { name: self.name@, entries: self.entries.deep_view() }
    }
}

impl DeepView for Section {
    type V = SectionView;

    open spec fn deep_view(&self) -> SectionView {
        self@
    }
}

/// The directives that `ferron` knows, by section. No two sections have the same
/// name.
#[derive(Debug, PartialEq, Eq)]
pub struct DirectiveRegistry {
    pub sections: Vec<Section>,
}

impl View for DirectiveRegistry {
    type V = Seq<SectionView>;

    open spec fn view(&self) -> Seq<SectionView> {
        self.sections.deep_view()
    }
}

/// A registry stands for its sections in their order, a section for its directives in
/// theirs, and a directive for all that is known of it.
pub proof fn registries_stand_for_their_directives(
    registry: DirectiveRegistry,
    section: Section,
    entry: DirectiveEntry,
    k: int,
)
    ensures
        registry@.len() == registry.sections@.len(),
        0 <= k < registry@.len() ==> registry@[k] == registry.sections@[k]@,
        section@.name == section.name@,
        section@.entries.len() == section.entries@.len(),
        0 <= k < section@.entries.len() ==> section@.entries[k] == section.entries@[k]@,
        entry@.name == entry.name@,
        entry@.usage == entry.usage@,
        entry@.description == entry.description@,
        entry@.global_only == entry.global_only,
        match entry.subblock_link {
            Some(link) => entry@.subblock_link == Some(link@),
            None => entry@.subblock_link is None,
        },
        match entry.applicable_protocols {
            Some(protocols) => entry@.applicable_protocols matches Some(seen) && seen.len()
                == protocols@.len() && (0 <= k < seen.len() ==> seen[k] == protocols@[k]@),
            None => entry@.applicable_protocols is None,
        },
{
}

/// Whether no two sections have the same name.
pub open spec fn distinct_names(sections: Seq<SectionView>) -> bool {
    forall|i: int, j: int|
        0 <= i < j < sections.len() ==> (#[trigger] sections[i]).name != (
        #[trigger] sections[j]).name
}

/// The number of sections before the first with the given name, or of all where
/// none has it.
pub open spec fn section_position(sections: Seq<SectionView>, name: Seq<char>) -> nat
    decreases sections.len(),
{
    if sections.len() == 0 || sections[0].name == name {
        0
    } else {
        1 + section_position(sections.skip(1), name)
    }
}

/// The directives of the section with the given name, if there is one.
pub open spec fn section_entries(sections: Seq<SectionView>, name: Seq<char>) -> Option<
    Seq<EntryView>,
> {
    let at = section_position(sections, name) as int;
    if at < sections.len() {
        Some(sections[at].entries)
    } else {
        None
    }
}

/// The sections with one more, which takes the place of any with its name.
pub open spec fn insert_section(sections: Seq<SectionView>, section: SectionView) -> Seq<
    SectionView,
> {
    let at = section_position(sections, section.name) as int;
    if at < sections.len() {
        sections.update(at, section)
    } else {
        sections.push(section)
    }
}

/// The sections that are left when each of a list takes the place of those before
/// it with its name.
pub open spec fn collected_sections(list: Seq<SectionView>) -> Seq<SectionView>
    decreases list.len(),
{
    if list.len() == 0 {
        seq![]
    } else {
        insert_section(collected_sections(list.drop_last()), list.last())
    }
}

/// All directives, section after section.
pub open spec fn all_entries(sections: Seq<SectionView>) -> Seq<EntryView>
    decreases sections.len(),
{
    if sections.len() == 0 {
        seq![]
    } else {
        sections[0].entries + all_entries(sections.skip(1))
    }
}

/// The first directive with the given name, if there is one.
pub open spec fn find_entry(entries: Seq<EntryView>, name: Seq<char>) -> Option<EntryView>
    decreases entries.len(),
{
    if entries.len() == 0 {
        None
    } else if entries[0].name == name {
        Some(entries[0])
    } else {
        find_entry(entries.skip(1), name)
    }
}

/// The first directive with the given name in the section with the other name.
pub open spec fn find_in_section(
    sections: Seq<SectionView>,
    section: Seq<char>,
    name: Seq<char>,
) -> Option<EntryView> {
    match section_entries(sections, section) {
        Some(entries) => find_entry(entries, name),
        None => None,
    }
}

proof fn lemma_section_position(sections: Seq<SectionView>, name: Seq<char>)
    ensures
        section_position(sections, name) <= sections.len(),
        forall|k: int|
            0 <= k < section_position(sections, name) ==> (#[trigger] sections[k]).name != name,
        section_position(sections, name) < sections.len() ==> sections[section_position(
            sections,
            name,
        ) as int].name == name,
    decreases sections.len(),
{
    if sections.len() > 0 && sections[0].name != name {
        let rest = sections.skip(1);
        lemma_section_position(rest, name);
        assert forall|k: int| 0 <= k < section_position(sections, name) implies (
        #[trigger] sections[k]).name != name by {
            if k > 0 {
                assert(rest[k - 1] == sections[k]);
            }
        }
    }
}

proof fn lemma_section_position_is(sections: Seq<SectionView>, name: Seq<char>, at: int)
    requires
        0 <= at <= sections.len(),
        forall|k: int| 0 <= k < at ==> (#[trigger] sections[k]).name != name,
        at < sections.len() ==> sections[at].name == name,
    ensures
        section_position(sections, name) == at,
    decreases sections.len(),
{
    if at > 0 {
        let rest = sections.skip(1);
        assert forall|k: int| 0 <= k < at - 1 implies (#[trigger] rest[k]).name != name by {
            assert(rest[k] == sections[k + 1]);
        }
        lemma_section_position_is(rest, name, at - 1);
    }
}

/// Where no two sections have the same name, none do after one took its place.
pub proof fn inserting_keeps_names_distinct(sections: Seq<SectionView>, section: SectionView)
    requires
        distinct_names(sections),
    ensures
        distinct_names(insert_section(sections, section)),
{
    lemma_section_position(sections, section.name);
    let at = section_position(sections, section.name) as int;
    let after = insert_section(sections, section);
    assert forall|i: int, j: int| 0 <= i < j < after.len() implies (#[trigger] after[i]).name != (
    #[trigger] after[j]).name by {
        if at < sections.len() {
            assert(after[i].name == sections[i].name);
            assert(after[j].name == sections[j].name);
        } else if j < sections.len() {
            assert(after[i] == sections[i]);
            assert(after[j] == sections[j]);
        } else {
            assert(after[i] == sections[i]);
        }
    }
}

/// After a section took its place, its name finds its directives, and every other
/// name finds what it found before.
pub proof fn inserting_changes_one_section(
    sections: Seq<SectionView>,
    section: SectionView,
    name: Seq<char>,
)
    ensures
        section_entries(insert_section(sections, section), name) == if section.name == name {
            Some(section.entries)
        } else {
            section_entries(sections, name)
        },
{
    let at = section_position(sections, section.name) as int;
    let found = section_position(sections, name) as int;
    lemma_section_position(sections, section.name);
    lemma_section_position(sections, name);
    let after = insert_section(sections, section);
    let expected = if section.name == name {
        at
    } else if found < sections.len() {
        found
    } else {
        after.len() as int
    };
    assert forall|k: int| 0 <= k < expected implies (#[trigger] after[k]).name != name by {
        if k < sections.len() && k != at {
            assert(after[k] == sections[k]);
        }
    }
    lemma_section_position_is(after, name, expected);
}

/// Of the sections with the same name in a list, the last is the one that is found.
pub proof fn later_sections_win(list: Seq<SectionView>, at: int)
    requires
        0 <= at < list.len(),
        forall|k: int| at < k < list.len() ==> (#[trigger] list[k]).name != list[at].name,
    ensures
        section_entries(collected_sections(list), list[at].name) == Some(list[at].entries),
    decreases list.len(),
{
    let front = list.drop_last();
    inserting_changes_one_section(collected_sections(front), list.last(), list[at].name);
    if at < list.len() - 1 {
        assert forall|k: int| at < k < front.len() implies (#[trigger] front[k]).name
            != front[at].name by {
            assert(front[k] == list[k]);
        }
        later_sections_win(front, at);
        assert(list[list.len() - 1].name != list[at].name);
    }
}

pub(crate) proof fn lemma_find_entry_concat(
    front: Seq<EntryView>,
    back: Seq<EntryView>,
    name: Seq<char>,
)
    ensures
        find_entry(front + back, name) == match find_entry(front, name) {
            Some(entry) => Some(entry),
            None => find_entry(back, name),
        },
    decreases front.len(),
{
    if front.len() == 0 {
        assert(front + back =~= back);
    } else {
        assert((front + back).skip(1) =~= front.skip(1) + back);
        lemma_find_entry_concat(front.skip(1), back, name);
    }
}

proof fn lemma_find_in_all(sections: Seq<SectionView>, name: Seq<char>)
    ensures
        find_entry(all_entries(sections), name) is Some <==> exists|k: int|
            0 <= k < sections.len() && find_entry((#[trigger] sections[k]).entries, name) is Some,
    decreases sections.len(),
{
    if sections.len() > 0 {
        let rest = sections.skip(1);
        lemma_find_entry_concat(sections[0].entries, all_entries(rest), name);
        lemma_find_in_all(rest, name);
        if exists|k: int|
            0 <= k < rest.len() && find_entry((#[trigger] rest[k]).entries, name) is Some {
            let k = choose|k: int|
                0 <= k < rest.len() && find_entry((#[trigger] rest[k]).entries, name) is Some;
            assert(sections[k + 1] == rest[k]);
        }
        if exists|k: int|
            0 < k < sections.len() && find_entry((#[trigger] sections[k]).entries, name) is Some {
            let k = choose|k: int|
                0 < k < sections.len() && find_entry((#[trigger] sections[k]).entries, name) is Some;
            assert(rest[k - 1] == sections[k]);
        }
    }
}

/// A directive is found in all sections together exactly if it is found in some
/// section by its name, in whatever order the sections are.
pub proof fn found_anywhere_is_found_in_a_section(sections: Seq<SectionView>, name: Seq<char>)
    requires
        distinct_names(sections),
    ensures
        find_entry(all_entries(sections), name) is Some <==> exists|section: Seq<char>|
            #[trigger] find_in_section(sections, section, name) is Some,
{
    lemma_find_in_all(sections, name);
    if find_entry(all_entries(sections), name) is Some {
        let k = choose|k: int|
            0 <= k < sections.len() && find_entry((#[trigger] sections[k]).entries, name) is Some;
        lemma_section_position_is(sections, sections[k].name, k);
        assert(find_in_section(sections, sections[k].name, name) is Some);
    }
    if exists|section: Seq<char>| #[trigger] find_in_section(sections, section, name) is Some {
        let section = choose|section: Seq<char>| #[trigger]
            find_in_section(sections, section, name) is Some;
        let at = section_position(sections, section) as int;
        assert(find_entry(sections[at].entries, name) is Some);
    }
}

/// A name finds the first directive that has it, and nothing where no directive has it.
pub proof fn first_entry_with_a_name_is_found(entries: Seq<EntryView>, name: Seq<char>, at: int)
    requires
        0 <= at <= entries.len(),
        forall|k: int| 0 <= k < at ==> (#[trigger] entries[k]).name != name,
        at < entries.len() ==> entries[at].name == name,
    ensures
        find_entry(entries, name) == if at < entries.len() {
            Some(entries[at])
        } else {
            None
        },
    decreases at,
{
    if at > 0 {
        let rest = entries.skip(1);
        assert(entries[0].name != name);
        assert forall|k: int| 0 <= k < at - 1 implies (#[trigger] rest[k]).name != name by {
            assert(rest[k] == entries[k + 1]);
        }
        first_entry_with_a_name_is_found(rest, name, at - 1);
    }
}

/// A name finds the directives of the first section that has it, in which a directive
/// is found by its own name. It finds nothing where no section has it.
pub proof fn first_section_with_a_name_is_found(
    sections: Seq<SectionView>,
    section: Seq<char>,
    at: int,
    name: Seq<char>,
)
    requires
        0 <= at <= sections.len(),
        forall|k: int| 0 <= k < at ==> (#[trigger] sections[k]).name != section,
        at < sections.len() ==> sections[at].name == section,
    ensures
        section_entries(sections, section) == if at < sections.len() {
            Some(sections[at].entries)
        } else {
            None
        },
        find_in_section(sections, section, name) == if at < sections.len() {
            find_entry(sections[at].entries, name)
        } else {
            None
        },
        section_position(sections, section) == at,
{
    lemma_section_position_is(sections, section, at);
}

/// All directives of two lists of sections are those of the first, then those of the
/// second. Those of a single section are the section's own.
pub proof fn directives_come_section_by_section(
    front: Seq<SectionView>,
    back: Seq<SectionView>,
    section: SectionView,
)
    ensures
        all_entries(front + back) == all_entries(front) + all_entries(back),
        all_entries(seq![section]) == section.entries,
        all_entries(Seq::<SectionView>::empty()).len() == 0,
    decreases front.len(),
{
    let one = seq![section];
    assert(one.skip(1) =~= Seq::<SectionView>::empty());
    assert(all_entries(one.skip(1)) =~= Seq::<EntryView>::empty());
    assert(all_entries(one) =~= section.entries);
    if front.len() == 0 {
        assert(front + back =~= back);
        assert(all_entries(front) + all_entries(back) =~= all_entries(back));
    } else {
        directives_come_section_by_section(front.skip(1), back, section);
        assert((front + back).skip(1) =~= front.skip(1) + back);
        assert(all_entries(front + back) =~= all_entries(front) + all_entries(back));
    }
}

/// A list finds a section by name exactly if a section in the list has that name.
pub proof fn only_listed_sections_are_found(list: Seq<SectionView>, name: Seq<char>)
    ensures
        section_entries(collected_sections(list), name) is Some <==> exists|k: int|
            0 <= k < list.len() && (#[trigger] list[k]).name == name,
    decreases list.len(),
{
    if list.len() > 0 {
        let front = list.drop_last();
        only_listed_sections_are_found(front, name);
        inserting_changes_one_section(collected_sections(front), list.last(), name);
        if exists|k: int| 0 <= k < front.len() && (#[trigger] front[k]).name == name {
            let k = choose|k: int| 0 <= k < front.len() && (#[trigger] front[k]).name == name;
            assert(list[k].name == name);
        }
        if exists|k: int| 0 <= k < list.len() && (#[trigger] list[k]).name == name {
            let k = choose|k: int| 0 <= k < list.len() && (#[trigger] list[k]).name == name;
            if k < front.len() {
                assert(front[k].name == name);
            } else {
                assert(list.last().name == name);
            }
        }
        assert(list.last() == list[list.len() - 1]);
    }
}

/// Sections none of which have the same name are collected as they are listed.
pub proof fn distinct_sections_are_all_kept(list: Seq<SectionView>)
    requires
        distinct_names(list),
    ensures
        collected_sections(list) == list,
    decreases list.len(),
{
    if list.len() == 0 {
        assert(list =~= seq![]);
    } else {
        let front = list.drop_last();
        assert forall|i: int, j: int| 0 <= i < j < front.len() implies (#[trigger] front[i]).name
            != (#[trigger] front[j]).name by {
            assert(front[i] == list[i]);
            assert(front[j] == list[j]);
        }
        distinct_sections_are_all_kept(front);
        assert forall|k: int| 0 <= k < front.len() implies (#[trigger] front[k]).name
            != list.last().name by {
            assert(front[k] == list[k]);
            assert(list.last() == list[list.len() - 1]);
        }
        lemma_section_position_is(front, list.last().name, front.len() as int);
        assert(front.push(list.last()) =~= list);
    }
}

/// The first directive with the given name, if there is one.
pub fn entry_named<'a>(entries: &'a Vec<DirectiveEntry>, name: &str) -> (found: Option<
    &'a DirectiveEntry,
>)
    ensures
        found.deep_view() == find_entry(entries.deep_view(), name@),
{
    let ghost all = entries.deep_view();
    let mut i: usize = 0;
    assert(all.skip(0) =~= all);
    while i < entries.len()
        invariant
            all == entries.deep_view(),
            i <= entries@.len(),
            find_entry(all, name@) == find_entry(all.skip(i as int), name@),
        decreases entries@.len() - i,
    {
        assert(all.skip(i as int)[0] == entries@[i as int]@);
        if same_text(entries[i].name.as_str(), name) {
            return Some(&entries[i]);
        }
        assert(all.skip(i as int).skip(1) =~= all.skip(i + 1));
        i += 1;
    }
    None
}

impl DirectiveRegistry {
    /// The model's invariant: no two sections have the same name.
    pub open spec fn well_formed(self) -> bool {
        distinct_names(self@)
    }

    /// A registry that knows no directive.
    pub fn empty() -> (registry: DirectiveRegistry)
        ensures
            registry.well_formed(),
            registry@ == Seq::<SectionView>::empty(),
    {
        let registry = DirectiveRegistry { sections: Vec::new() };
        assert(registry@ =~= Seq::<SectionView>::empty());
        registry
    }

    /// The registry that a JSON document describes: the sections it lists, of which
    /// one takes the place of those before it with its name. A document that cannot
    /// be read (`None`) describes the empty registry.
    pub fn from_json(parsed: Option<Vec<Section>>) -> (registry: DirectiveRegistry)
        ensures
            registry.well_formed(),
            registry@ == match parsed {
                Some(list) => collected_sections(list.deep_view()),
                None => Seq::<SectionView>::empty(),
            },
    {
        let mut registry = DirectiveRegistry::empty();
        if let Some(list) = parsed {
            let ghost all = list.deep_view();
            assert(all.take(0) =~= seq![]);
            for section in it: list
                invariant
                    it.seq().len() == all.len(),
                    forall|k: int| 0 <= k < all.len() ==> (#[trigger] it.seq()[k])@ == all[k],
                    registry.well_formed(),
                    registry@ == collected_sections(all.take(it.index())),
            {
                proof {
                    let next = all.take(it.index() + 1);
                    assert(next.drop_last() =~= all.take(it.index()));
                    assert(next.last() == section@);
                }
                registry.insert(section);
            }
            assert(all.take(all.len() as int) =~= all);
        }
        registry
    }

    /// Adds a section, which takes the place of any with its name.
    pub fn insert(&mut self, section: Section)
        requires
            old(self).well_formed(),
        ensures
            final(self).well_formed(),
            final(self)@ == insert_section(old(self)@, section@),
    {
        let ghost before = self@;
        proof {
            inserting_keeps_names_distinct(before, section@);
        }
        let at: usize = self.position(section.name.as_str());
        if at < self.sections.len() {
            self.sections.set(at, section);
            assert(self@ =~= before.update(at as int, section@));
        } else {
            self.sections.push(section);
            assert(self@ =~= before.push(section@));
        }
    }

    /// The number of sections before the first with the given name, or of all where
    /// none has it.
    pub fn position(&self, name: &str) -> (at: usize)
        ensures
            at == section_position(self@, name@),
            at <= self.sections@.len(),
    {
        let ghost all = self@;
        let mut i: usize = 0;
        assert(all.skip(0) =~= all);
        while i < self.sections.len()
            invariant
                all == self@,
                i <= self.sections@.len(),
                section_position(all, name@) == i + section_position(all.skip(i as int), name@),
            decreases self.sections@.len() - i,
        {
            assert(all.skip(i as int)[0] == self.sections@[i as int]@);
            if same_text(self.sections[i].name.as_str(), name) {
                return i;
            }
            assert(all.skip(i as int).skip(1) =~= all.skip(i + 1));
            i += 1;
        }
        i
    }

    /// The directives of the section with the given name, if there is one.
    pub fn section(&self, name: &str) -> (found: Option<&Vec<DirectiveEntry>>)
        ensures
            found.deep_view() == section_entries(self@, name@),
    {
        let at: usize = self.position(name);
        if at < self.sections.len() {
            Some(&self.sections[at].entries)
        } else {
            None
        }
    }

    /// The first directive with the given name in the section with the other name.
    pub fn find_in(&self, section: &str, name: &str) -> (found: Option<&DirectiveEntry>)
        ensures
            found.deep_view() == find_in_section(self@, section@, name@),
    {
        match self.section(section) {
            Some(entries) => entry_named(entries, name),
            None => None,
        }
    }

    /// The first directive with the given name in any section.
    pub fn find_anywhere(&self, name: &str) -> (found: Option<&DirectiveEntry>)
        ensures
            found.deep_view() == find_entry(all_entries(self@), name@),
    {
        let ghost all = self@;
        let mut i: usize = 0;
        assert(all.skip(0) =~= all);
        while i < self.sections.len()
            invariant
                all == self@,
                i <= self.sections@.len(),
                find_entry(all_entries(all), name@) == find_entry(
                    all_entries(all.skip(i as int)),
                    name@,
                ),
            decreases self.sections@.len() - i,
        {
            let ghost rest = all.skip(i as int);
            assert(rest[0] == self.sections@[i as int]@);
            assert(rest.skip(1) =~= all.skip(i + 1));
            proof {
                lemma_find_entry_concat(rest[0].entries, all_entries(rest.skip(1)), name@);
            }
            let found = entry_named(&self.sections[i].entries, name);
            if found.is_some() {
                return found;
            }
            i += 1;
        }
        None
    }
}

// ---------------------------------------------------------------------------
// The programs that ferron consists of

/// What a program that ran to its end left behind.
#[derive(Debug, PartialEq, Eq)]
pub struct CommandOutput {
    pub success: bool,
    pub stdout: Vec<u8>,
}

/// The JSON document in which `ferron directives` lists the directives: what it
/// printed, unless it could not be run (`None`) or failed.
pub fn directives_json(output: &Option<CommandOutput>) -> (json: Option<String>)
    ensures
        json.deep_view() == match *output {
            Some(o) => if o.success {
                Some(lossy_text(o.stdout@))
            } else {
                None
            },
            None => None,
        },
        json matches Some(text) ==> (output matches Some(o) && (valid_utf8(o.stdout@) ==> text@
            == decode_utf8(o.stdout@))),
{
    match output {
        Some(o) => if o.success {
            Some(read_lossy(o.stdout.as_slice()))
        } else {
            None
        },
        None => None,
    }
}

// ---------------------------------------------------------------------------
// The doctor

/// Something that the doctor found in a configuration file.
#[derive(Debug, PartialEq, Eq)]
pub struct ValidationDiagnostic {
    pub kind: String,
    pub message: String,
    pub line: Option<usize>,
    pub column: Option<usize>,
    pub scope: Option<String>,
}

/// What the doctor thinks of a configuration file.
#[derive(Debug, PartialEq, Eq)]
pub struct ValidationResult {
    pub valid: bool,
    pub diagnostics: Vec<ValidationDiagnostic>,
}

/// Where in a file the doctor found something, as far as it says so.
#[derive(Debug, PartialEq, Eq)]
pub struct ReportedSpan {
    pub line: Option<usize>,
    pub column: Option<usize>,
}

/// A finding as the doctor's report words it.
#[derive(Debug, PartialEq, Eq)]
pub struct ReportedDiagnostic {
    pub kind: String,
    pub message: String,
    pub span: Option<ReportedSpan>,
    pub scope: Option<String>,
}

/// The doctor's report.
#[derive(Debug, PartialEq, Eq)]
pub struct DoctorReport {
    pub valid: bool,
    pub diagnostics: Vec<ReportedDiagnostic>,
}

/// How a run of the doctor went.
#[derive(Debug, PartialEq, Eq)]
pub enum DoctorRun {
    /// It could not be run.
    NotRun,
    /// It ran, and what it printed is no report.
    Unreadable { success: bool },
    /// It ran and printed this report.
    Reported { report: DoctorReport },
}

/// What a [`ValidationDiagnostic`] stands for.
pub struct ValidationDiagnosticView {
    pub kind: Seq<char>,
    pub message: Seq<char>,
    pub line: Option<usize>,
    pub column: Option<usize>,
    pub scope: Option<Seq<char>>,
}

impl View for ValidationDiagnostic {
    type V = ValidationDiagnosticView;

    open spec fn view(&self) -> ValidationDiagnosticView {
        ValidationDiagnosticView {
            kind: self.kind@,
            message: self.message@,
            line: self.line,
            column: self.column,
            scope: self.scope.deep_view(),
        }
    }
}

/// A finding stands for all that is known of it.
pub proof fn findings_stand_for_their_fields(diagnostic: ValidationDiagnostic)
    ensures
        diagnostic@.kind == diagnostic.kind@,
        diagnostic@.message == diagnostic.message@,
        diagnostic@.line == diagnostic.line,
        diagnostic@.column == diagnostic.column,
        match diagnostic.scope {
            Some(scope) => diagnostic@.scope == Some(scope@),
            None => diagnostic@.scope is None,
        },
{
}

impl DeepView for ValidationDiagnostic {
    type V = ValidationDiagnosticView;

    open spec fn deep_view(&self) -> ValidationDiagnosticView {
        self@
    }
}

impl Clone for ValidationDiagnostic {
    fn clone(&self) -> (copy: Self)
        ensures
            copy@ == self@,
    {
        ValidationDiagnostic {
            kind: self.kind.clone(),
            message: self.message.clone(),
            line: self.line,
            column: self.column,
            scope: clone_optional(&self.scope),
        }
    }
}

impl Clone for ValidationResult {
    fn clone(&self) -> (copy: Self)
        ensures
            copy.valid == self.valid,
            copy.diagnostics.deep_view() == self.diagnostics.deep_view(),
    {
        let mut diagnostics: Vec<ValidationDiagnostic> = Vec::new();
        let mut i: usize = 0;
        while i < self.diagnostics.len()
            invariant
                i <= self.diagnostics@.len(),
                diagnostics@.len() == i,
                forall|k: int|
                    0 <= k < i ==> (#[trigger] diagnostics@[k])@ == self.diagnostics@[k]@,
            decreases self.diagnostics@.len() - i,
        {
            diagnostics.push(self.diagnostics[i].clone());
            i += 1;
        }
        assert(diagnostics.deep_view() =~= self.diagnostics.deep_view());
        ValidationResult { valid: self.valid, diagnostics }
    }
}

/// A finding of a report, with its place spread out.
pub open spec fn finding(reported: ReportedDiagnostic) -> ValidationDiagnosticView {
    ValidationDiagnosticView {
        kind: reported.kind@,
        message: reported.message@,
        line: match reported.span {
            Some(span) => span.line,
            None => None,
        },
        column: match reported.span {
            Some(span) => span.column,
            None => None,
        },
        scope: reported.scope.deep_view(),
    }
}

/// A finding keeps what the report says of it. It has a line or a column exactly if
/// the report gives it a place with one.
pub proof fn findings_keep_what_was_reported(reported: ReportedDiagnostic)
    ensures
        finding(reported).kind == reported.kind@,
        finding(reported).message == reported.message@,
        reported.scope is None ==> finding(reported).scope is None,
        reported.scope matches Some(scope) ==> finding(reported).scope == Some(scope@),
        reported.span is None ==> finding(reported).line is None && finding(reported).column is None,
        reported.span matches Some(span) ==> finding(reported).line == span.line && finding(
            reported,
        ).column == span.column,
{
}

/// The arguments with which `ferron` examines the file at `config_path`.
pub fn doctor_arguments(config_path: &str) -> (arguments: Vec<String>)
    ensures
        arguments.deep_view() == seq![
            "doctor"@,
            "--json"@,
            "-c"@,
            config_path@,
            "--config-adapter"@,
            "ferronconf"@,
        ],
{
    let mut arguments: Vec<String> = Vec::new();
    arguments.push("doctor".to_string());
    arguments.push("--json".to_string());
    arguments.push("-c".to_string());
    arguments.push(config_path.to_string());
    arguments.push("--config-adapter".to_string());
    arguments.push("ferronconf".to_string());
    assert(arguments.deep_view() =~= seq![
        "doctor"@,
        "--json"@,
        "-c"@,
        config_path@,
        "--config-adapter"@,
        "ferronconf"@,
    ]);
    arguments
}

/// The JSON document that the doctor printed, without the whitespace around it.
pub fn doctor_json(output: &CommandOutput) -> (json: String)
    ensures
        json@ == trimmed(lossy_text(output.stdout@)),
        valid_utf8(output.stdout@) ==> json@ == trimmed(decode_utf8(output.stdout@)),
{
    trim(read_lossy(output.stdout.as_slice()).as_str())
}

/// What the doctor thinks of a file, by how its run went. A file that could not be
/// examined counts as valid; one whose examination printed no report, as valid
/// where the doctor succeeded.
pub fn run_doctor(run: &DoctorRun) -> (result: ValidationResult)
    ensures
        match *run {
            DoctorRun::NotRun => result.valid && result.diagnostics@.len() == 0,
            DoctorRun::Unreadable { success } => result.valid == success
                && result.diagnostics@.len() == 0,
            DoctorRun::Reported { report } => result.valid == report.valid
                && result.diagnostics.deep_view() == report.diagnostics@.map_values(
                |d: ReportedDiagnostic| finding(d),
            ),
        },
        *run matches DoctorRun::Reported { report } ==> {
            &&& result.diagnostics@.len() == report.diagnostics@.len()
            &&& forall|k: int|
                0 <= k < report.diagnostics@.len() ==> (#[trigger] result.diagnostics@[k])@
                    == finding(report.diagnostics@[k])
        },
{
    match run {
        DoctorRun::NotRun => ValidationResult { valid: true, diagnostics: Vec::new() },
        DoctorRun::Unreadable { success } => ValidationResult {
            valid: *success,
            diagnostics: Vec::new(),
        },
        DoctorRun::Reported { report } => {
            let mut diagnostics: Vec<ValidationDiagnostic> = Vec::new();
            let mut i: usize = 0;
            while i < report.diagnostics.len()
                invariant
                    i <= report.diagnostics@.len(),
                    diagnostics@.len() == i,
                    forall|k: int|
                        0 <= k < i ==> (#[trigger] diagnostics@[k])@ == finding(
                            report.diagnostics@[k],
                        ),
                decreases report.diagnostics@.len() - i,
            {
                let d = &report.diagnostics[i];
                let line: Option<usize> = match &d.span {
                    Some(span) => span.line,
                    None => None,
                };
                let column: Option<usize> = match &d.span {
                    Some(span) => span.column,
                    None => None,
                };
                diagnostics.push(
                    ValidationDiagnostic {
                        kind: d.kind.clone(),
                        message: d.message.clone(),
                        line,
                        column,
                        scope: clone_optional(&d.scope),
                    },
                );
                i += 1;
            }
            assert(diagnostics.deep_view() =~= report.diagnostics@.map_values(
                |d: ReportedDiagnostic| finding(d),
            ));
            ValidationResult { valid: report.valid, diagnostics }
        },
    }
}

} // verus!
