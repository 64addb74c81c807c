//! What the server remembers between requests, and how it answers them.

use vstd::hash_map::StringHashMap;
use vstd::prelude::*;

use crate::completion::{completion, completion_after};
use crate::config::parsed_config;
use crate::diagnostics::{diagnostics_after, publish_diagnostics_for_uri};
use crate::directives::DirectiveRegistry;
use crate::hover::{hover, hover_after};
use crate::protocol::{CompletionItem, CompletionItemView, Diagnostic, Hover, HoverView, Position};

verus! {

/// The open documents, by URI, and the directives, once they are known.
pub struct Backend {
    pub documents: StringHashMap<String>,
    pub directives: Option<DirectiveRegistry>,
}

impl Backend {
    /// The text of an open document.
    pub open spec fn document(self, uri: Seq<char>) -> Option<Seq<char>> {
        if self.documents@.contains_key(uri) {
            Some(self.documents@[uri]@)
        } else {
            None
        }
    }

    /// What the server shows for the cursor in a document. It shows nothing in one
    /// that is not open, nor before it knows the directives.
    pub open spec fn hover_answer(self, uri: Seq<char>, position: Position) -> Option<HoverView> {
        match (self.document(uri), self.directives) {
            (Some(text), Some(registry)) => hover_after(
                parsed_config(text),
                text,
                position,
                registry@,
            ),
            _ => None,
        }
    }

    /// How the server completes what is being typed in a document. It completes
    /// nothing in one that is not open, nor before it knows the directives.
    pub open spec fn completion_answer(self, uri: Seq<char>, position: Position) -> Option<
        Seq<CompletionItemView>,
    > {
        match (self.document(uri), self.directives) {
            (Some(text), Some(registry)) => completion_after(
                parsed_config(text),
                text,
                position,
                registry@,
            ),
            _ => None,
        }
    }

    /// A server that knows no document and no directive.
    pub fn new() -> (backend: Backend)
        ensures
            backend.documents@ == Map::<Seq<char>, String>::empty(),
            backend.directives is None,
    {
        Backend { documents: StringHashMap::new(), directives: None }
    }

    /// Takes note of the directives.
    pub fn fetch_directives(&mut self, registry: DirectiveRegistry)
        ensures
            final(self).directives == Some(registry),
            final(self).documents == old(self).documents,
    {
        self.directives = Some(registry);
    }

    /// Takes note of the text of a document, and says what is wrong with it.
    pub fn did_open(&mut self, uri: String, text: String) -> (diagnostics: Vec<Diagnostic>)
        ensures
            diagnostics.deep_view() == diagnostics_after(parsed_config(text@)),
            final(self).documents@ == old(self).documents@.insert(uri@, text),
            final(self).directives == old(self).directives,
    {
        let diagnostics = publish_diagnostics_for_uri(text.as_str());
        self.documents.insert(uri, text);
        diagnostics
    }

    /// Takes note of the newest text of a document, which is the last of its changes,
    /// and says what is wrong with it. Without changes there is nothing to do.
    pub fn did_change(&mut self, uri: String, changes: &Vec<String>) -> (diagnostics: Option<
        Vec<Diagnostic>,
    >)
        ensures
            changes@.len() == 0 ==> diagnostics is None && *final(self) == *old(self),
            changes@.len() > 0 ==> {
                &&& diagnostics.deep_view() == Some(
                    diagnostics_after(parsed_config(changes@.last()@)),
                )
                &&& final(self).documents@ == old(self).documents@.insert(uri@, changes@.last())
                &&& final(self).directives == old(self).directives
            },
    {
        if changes.len() == 0 {
            return None;
        }
        let text = changes[changes.len() - 1].clone();
        Some(self.did_open(uri, text))
    }

    /// The text of an open document.
    pub fn text_of(&self, uri: &str) -> (text: Option<&String>)
        ensures
            text.deep_view() == self.document(uri@),
    {
        self.documents.get(uri)
    }

    /// What the server shows for the cursor in a document.
    pub fn hover(&self, uri: &str, position: Position) -> (shown: Option<Hover>)
        ensures
            shown.deep_view() == self.hover_answer(uri@, position),
    {
        match (self.text_of(uri), &self.directives) {
            (Some(text), Some(registry)) => hover(text.as_str(), position, registry),
            _ => None,
        }
    }

    /// How the server completes what is being typed in a document.
    pub fn completion(&self, uri: &str, position: Position) -> (items: Option<Vec<CompletionItem>>)
        ensures
            items.deep_view() == self.completion_answer(uri@, position),
    {
        match (self.text_of(uri), &self.directives) {
            (Some(text), Some(registry)) => completion(text.as_str(), position, registry),
            _ => None,
        }
    }
}

/// After a document was opened or changed, the server answers for it by its new text,
/// and for every other document as before.
pub proof fn answers_follow_the_newest_text(
    before: Backend,
    after: Backend,
    uri: Seq<char>,
    text: String,
    other: Seq<char>,
    position: Position,
)
    requires
        after.documents@ == before.documents@.insert(uri, text),
        after.directives == before.directives,
    ensures
        after.document(uri) == Some(text@),
        other != uri ==> after.document(other) == before.document(other),
        other != uri ==> after.hover_answer(other, position) == before.hover_answer(
            other,
            position,
        ),
        other != uri ==> after.completion_answer(other, position) == before.completion_answer(
            other,
            position,
        ),
{
}

/// A server answers for an open document by its text and the directives it knows. For a
/// document that is not open, or without directives, it has no answer.
pub proof fn answers_need_a_text_and_directives(
    backend: Backend,
    uri: Seq<char>,
    position: Position,
)
    ensures
        !backend.documents@.contains_key(uri) || backend.directives is None ==> {
            &&& backend.hover_answer(uri, position) is None
            &&& backend.completion_answer(uri, position) is None
        },
        backend.documents@.contains_key(uri) ==> {
            let text = backend.documents@[uri]@;
            backend.directives matches Some(registry) ==> {
                &&& backend.hover_answer(uri, position) == hover_after(
                    parsed_config(text),
                    text,
                    position,
                    registry@,
                )
                &&& backend.completion_answer(uri, position) == completion_after(
                    parsed_config(text),
                    text,
                    position,
                    registry@,
                )
            }
        },
        backend.document(uri) is Some <==> backend.documents@.contains_key(uri),
{
}

/// Only the text of the document that an answer is for and the directives decide on the
/// answer: two servers that agree on both give the same one.
pub proof fn answers_depend_on_text_and_directives_only(
    one: Backend,
    other: Backend,
    uri: Seq<char>,
    position: Position,
)
    requires
        one.document(uri) == other.document(uri),
        one.directives is Some <==> other.directives is Some,
        one.directives matches Some(a) ==> other.directives matches Some(b) ==> a@ == b@,
    ensures
        one.hover_answer(uri, position) == other.hover_answer(uri, position),
        one.completion_answer(uri, position) == other.completion_answer(uri, position),
{
}

} // verus!
