//! The parts of the language server protocol that the server's answers are made
//! of.

use vstd::prelude::*;

verus! {

/// A place in a document, with lines and characters counted from zero.
#[derive(Debug, Clone, Copy, PartialEq, Eq, Structural)]
pub struct Position {
    pub line: u32,
    pub character: u32,
}

/// The part of a document from one place up to another.
#[derive(Debug, Clone, Copy, PartialEq, Eq, Structural)]
pub struct Range {
    pub start: Position,
    pub end: Position,
}

/// How bad a diagnostic is.
#[derive(Debug, Clone, Copy, PartialEq, Eq, Structural)]
pub enum Severity {
    Error,
    Warning,
    Information,
}

/// Something to point out to the user.
#[derive(Debug, PartialEq, Eq)]
pub struct Diagnostic {
    pub range: Range,
    pub severity: Severity,
    pub message: String,
    pub source: String,
}

/// A change of a document.
#[derive(Debug, PartialEq, Eq)]
pub struct TextEdit {
    pub range: Range,
    pub new_text: String,
}

/// Markdown to show for a part of a document.
#[derive(Debug, PartialEq, Eq)]
pub struct Hover {
    pub markdown: String,
    pub range: Range,
}

/// What a completion stands for.
#[derive(Debug, Clone, Copy, PartialEq, Eq, Structural)]
pub enum CompletionItemKind {
    Keyword,
}

/// Whether an inserted text is taken as it is, or has places to fill in.
#[derive(Debug, Clone, Copy, PartialEq, Eq, Structural)]
pub enum InsertTextFormat {
    PlainText,
    Snippet,
}

/// A way to complete what the user is typing.
#[derive(Debug, PartialEq, Eq)]
pub struct CompletionItem {
    pub label: String,
    pub kind: CompletionItemKind,
    pub detail: String,
    pub documentation: String,
    pub insert_text: String,
    pub insert_text_format: InsertTextFormat,
}

/// What a [`Diagnostic`] stands for.
pub struct DiagnosticView {
    pub range: Range,
    pub severity: Severity,
    pub message: Seq<char>,
    pub source: Seq<char>,
}

impl View for Diagnostic {
    type V = DiagnosticView;

    open spec fn view(&self) -> DiagnosticView {
        DiagnosticView {
            range: self.range,
            severity: self.severity,
            message: self.message@,
            source: self.source@,
        }
    }
}

impl DeepView for Diagnostic {
    type V = DiagnosticView;

    open spec fn deep_view(&self) -> DiagnosticView {
        self@
    }
}

/// What a [`TextEdit`] stands for.
pub struct TextEditView {
    pub range: Range,
    pub new_text: Seq<char>,
}

impl View for TextEdit {
    type V = TextEditView;

    open spec fn view(&self) -> TextEditView {
        TextEditView { range: self.range, new_text: self.new_text@ }
    }
}

impl DeepView for TextEdit {
    type V = TextEditView;

    open spec fn deep_view(&self) -> TextEditView {
        self@
    }
}

/// What a [`Hover`] stands for.
pub struct HoverView {
    pub markdown: Seq<char>,
    pub range: Range,
}

impl View for Hover {
    type V = HoverView;

    open spec fn view(&self) -> HoverView {
        HoverView { markdown: self.markdown@, range: self.range }
    }
}

impl DeepView for Hover {
    type V = HoverView;

    open spec fn deep_view(&self) -> HoverView {
        self@
    }
}

/// What a [`CompletionItem`] stands for.
pub struct CompletionItemView {
    pub label: Seq<char>,
    pub kind: CompletionItemKind,
    pub detail: Seq<char>,
    pub documentation: Seq<char>,
    pub insert_text: Seq<char>,
    pub insert_text_format: InsertTextFormat,
}

impl View for CompletionItem {
    type V = CompletionItemView;

    open spec fn view(&self) -> CompletionItemView {
        CompletionItemView {
            label: self.label@,
            kind: self.kind,
            detail: self.detail@,
            documentation: self.documentation@,
            insert_text: self.insert_text@,
            insert_text_format: self.insert_text_format,
        }
    }
}

impl DeepView for CompletionItem {
    type V = CompletionItemView;

    open spec fn deep_view(&self) -> CompletionItemView {
        self@
    }
}

/// An answer stands for all that it holds.
pub proof fn answers_stand_for_their_fields(
    diagnostic: Diagnostic,
    edit: TextEdit,
    hover: Hover,
    item: CompletionItem,
)
    ensures
        diagnostic@.range == diagnostic.range,
        diagnostic@.severity == diagnostic.severity,
        diagnostic@.message == diagnostic.message@,
        diagnostic@.source == diagnostic.source@,
        edit@.range == edit.range,
        edit@.new_text == edit.new_text@,
        hover@.markdown == hover.markdown@,
        hover@.range == hover.range,
        item@.label == item.label@,
        item@.kind == item.kind,
        item@.detail == item.detail@,
        item@.documentation == item.documentation@,
        item@.insert_text == item.insert_text@,
        item@.insert_text_format == item.insert_text_format,
{
}

} // verus!
