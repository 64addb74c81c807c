//! Parsed `ferron.conf` files.
//!
//! The grammar is the business of the `ferronconf` crate. What the language
//! server needs of a parsed file is where its blocks are and what opens them, and
//! [`Stmt`] holds just that.

use std::str::FromStr;
use vstd::prelude::*;

verus! {

/// A place in a file, with lines and columns counted from one.
#[derive(Debug, Clone, Copy, PartialEq, Eq, Structural)]
pub struct Place {
    pub line: usize,
    pub column: usize,
}

/// A pattern that names the hosts of a host block.
#[derive(Debug, PartialEq, Eq)]
pub struct Host {
    pub protocol: Option<String>,
}

/// Statements between braces. The span is that of the opening brace.
#[derive(Debug, PartialEq, Eq)]
pub struct Body {
    pub statements: Vec<Stmt>,
    pub span: Place,
}

/// A statement of a configuration file.
#[derive(Debug, PartialEq, Eq)]
pub enum Stmt {
    Directive { name: String, body: Option<Body>, span: Place },
    HostBlock { hosts: Vec<Host>, block: Body, span: Place },
    MatchBlock { span: Place },
    GlobalBlock { block: Body },
    SnippetBlock { name: String, block: Body, span: Place },
    Comment { span: Place },
}

/// Why a file could not be parsed, and where.
#[derive(Debug, PartialEq, Eq)]
pub struct SyntaxError {
    pub message: String,
    pub span: Place,
}

/// What a [`Body`] stands for.
pub struct BodyView {
    pub statements: Seq<StmtView>,
    pub span: Place,
}

/// What a [`Stmt`] stands for. Of a host pattern only the protocol counts.
pub enum StmtView {
    Directive { name: Seq<char>, body: Option<BodyView>, span: Place },
    HostBlock { hosts: Seq<Option<Seq<char>>>, block: BodyView, span: Place },
    MatchBlock { span: Place },
    GlobalBlock { block: BodyView },
    SnippetBlock { name: Seq<char>, block: BodyView, span: Place },
    Comment { span: Place },
}

/// What a [`SyntaxError`] stands for.
pub struct SyntaxErrorView {
    pub message: Seq<char>,
    pub span: Place,
}

impl View for SyntaxError {
    type V = SyntaxErrorView;

    open spec fn view(&self) -> SyntaxErrorView {
        SyntaxErrorView { message: self.message@, span: self.span }
    }
}

/// The protocols that some host patterns ask for.
pub open spec fn host_protocols(hosts: Seq<Host>) -> Seq<Option<Seq<char>>> {
    Seq::new(hosts.len(), |i: int| hosts[i].protocol.deep_view())
}

/// What a statement stands for.
pub open spec fn statement_view(statement: Stmt) -> StmtView
    decreases statement,
{
    match statement {
        Stmt::Directive { name, body, span } => StmtView::Directive {
            name: name@,
            body: match body {
                Some(b) => Some(block_view(b)),
                None => None,
            },
            span,
        },
        Stmt::HostBlock { hosts, block, span } => StmtView::HostBlock {
            hosts: host_protocols(hosts@),
            block: block_view(block),
            span,
        },
        Stmt::MatchBlock { span } => StmtView::MatchBlock { span },
        Stmt::GlobalBlock { block } => StmtView::GlobalBlock { block: block_view(block) },
        Stmt::SnippetBlock { name, block, span } => StmtView::SnippetBlock {
            name: name@,
            block: block_view(block),
            span,
        },
        Stmt::Comment { span } => StmtView::Comment { span },
    }
}

/// What a block stands for.
pub open spec fn block_view(block: Body) -> BodyView
    decreases block,
{
    BodyView { statements: statement_views(block.statements@), span: block.span }
}

/// What some statements stand for.
pub open spec fn statement_views(statements: Seq<Stmt>) -> Seq<StmtView>
    decreases statements,
{
    Seq::new(
        statements.len(),
        |i: int|
            if 0 <= i < statements.len() {
                statement_view(statements[i])
            } else {
                arbitrary()
            },
    )
}

impl StmtView {
    /// The place where the statement begins.
    pub open spec fn span(self) -> Place {
        match self {
            StmtView::Directive { span, .. } => span,
            StmtView::HostBlock { span, .. } => span,
            StmtView::MatchBlock { span } => span,
            StmtView::GlobalBlock { block } => block.span,
            StmtView::SnippetBlock { span, .. } => span,
            StmtView::Comment { span } => span,
        }
    }

    /// The block of statements that the statement holds, if any.
    pub open spec fn block(self) -> Option<BodyView> {
        match self {
            StmtView::Directive { body, .. } => body,
            StmtView::HostBlock { block, .. } => Some(block),
            StmtView::GlobalBlock { block } => Some(block),
            StmtView::SnippetBlock { block, .. } => Some(block),
            _ => None,
        }
    }
}

impl Stmt {
    /// The place where the statement begins.
    pub fn span(&self) -> (span: Place)
        ensures
            span == statement_view(*self).span(),
    {
        match self {
            Stmt::Directive { span, .. } => *span,
            Stmt::HostBlock { span, .. } => *span,
            Stmt::MatchBlock { span } => *span,
            Stmt::GlobalBlock { block } => block.span,
            Stmt::SnippetBlock { span, .. } => *span,
            Stmt::Comment { span } => *span,
        }
    }
}

// ---------------------------------------------------------------------------
// The parser

/// `ferronconf::Span`: a line and a column, both counted from one.
#[verifier::external_type_specification]
pub struct ExSpan(ferronconf::Span);

/// `ferronconf::Config`: the statements of a file, with the comments and blank
/// lines around them.
#[verifier::external_type_specification]
pub struct ExConfig(ferronconf::Config);

/// `ferronconf::Statement`: a statement of one of six kinds.
#[verifier::external_type_specification]
pub struct ExStatement(ferronconf::Statement);

/// `ferronconf::Directive`: a name, its arguments and perhaps a block.
#[verifier::external_type_specification]
pub struct ExDirective(ferronconf::Directive);

/// `ferronconf::HostBlock`: host patterns and a block.
#[verifier::external_type_specification]
pub struct ExHostBlock(ferronconf::HostBlock);

/// `ferronconf::MatchBlock`: a name and conditions.
#[verifier::external_type_specification]
pub struct ExMatchBlock(ferronconf::MatchBlock);

/// `ferronconf::SnippetBlock`: a name and a block.
#[verifier::external_type_specification]
pub struct ExSnippetBlock(ferronconf::SnippetBlock);

/// `ferronconf::Block`: statements between braces.
#[verifier::external_type_specification]
pub struct ExBlock(ferronconf::Block);

/// `ferronconf::HostPattern`: labels, perhaps a port and perhaps a protocol.
#[verifier::external_type_specification]
pub struct ExHostPattern(ferronconf::HostPattern);

/// `ferronconf::ParseError`: a message and a place.
#[verifier::external_type_specification]
pub struct ExParseError(ferronconf::ParseError);

/// `ferronconf::HostLabels`: carried along, never looked into.
#[verifier::external_type_specification]
#[verifier::external_body]
pub struct ExHostLabels(ferronconf::HostLabels);

/// `ferronconf::Value`: carried along, never looked into.
#[verifier::external_type_specification]
#[verifier::external_body]
pub struct ExValue(ferronconf::Value);

/// `ferronconf::MatcherExpression`: carried along, never looked into.
#[verifier::external_type_specification]
#[verifier::external_body]
pub struct ExMatcherExpression(ferronconf::MatcherExpression);

/// The place that a `ferronconf::Span` names.
pub open spec fn span_of(span: ferronconf::Span) -> Place {
    Place { line: span.line, column: span.column }
}

/// What a `ferronconf::Statement` stands for.
pub open spec fn parsed_statement(statement: ferronconf::Statement) -> StmtView
    decreases statement,
{
    match statement {
        ferronconf::Statement::Directive(d) => StmtView::Directive {
            name: d.name@,
            body: match d.block {
                Some(b) => Some(parsed_block(b)),
                None => None,
            },
            span: span_of(d.span),
        },
        ferronconf::Statement::HostBlock(h) => StmtView::HostBlock {
            hosts: Seq::new(h.hosts@.len(), |i: int| h.hosts@[i].protocol.deep_view()),
            block: parsed_block(h.block),
            span: span_of(h.span),
        },
        ferronconf::Statement::MatchBlock(m) => StmtView::MatchBlock { span: span_of(m.span) },
        ferronconf::Statement::GlobalBlock(b) => StmtView::GlobalBlock {
            block: parsed_block(b),
        },
        ferronconf::Statement::SnippetBlock(s) => StmtView::SnippetBlock {
            name: s.name@,
            block: parsed_block(s.block),
            span: span_of(s.span),
        },
        ferronconf::Statement::Comment(_, span) => StmtView::Comment { span: span_of(span) },
    }
}

/// What a `ferronconf::Block` stands for.
pub open spec fn parsed_block(block: ferronconf::Block) -> BodyView
    decreases block,
{
    BodyView {
        statements: parsed_statements(block.statements@),
        span: span_of(block.span),
    }
}

/// What some `ferronconf::Statement`s stand for.
pub open spec fn parsed_statements(statements: Seq<ferronconf::Statement>) -> Seq<StmtView>
    decreases statements,
{
    Seq::new(
        statements.len(),
        |i: int|
            if 0 <= i < statements.len() {
                parsed_statement(statements[i])
            } else {
                arbitrary()
            },
    )
}

/// What the text of a file parses to, or why it does not: the answer of
/// `ferronconf::Config::from_str`.
pub uninterp spec fn parsed_config(text: Seq<char>) -> Result<Seq<StmtView>, SyntaxErrorView>;

/// `ferronconf::Config::from_str`: whether a text parses, the statements it
/// parses to, and the message and place of the error otherwise, depend on the
/// text alone, and are called [`parsed_config`]. Arguments, conditions, comments
/// and blank lines are left unsaid. Blocks nested deeper than the stack has room
/// for end the process.
#[verifier::external_body]
fn parse_file(text: &str) -> (parsed: Result<ferronconf::Config, ferronconf::ParseError>)
    ensures
        match parsed {
            Ok(config) => parsed_config(text@) == Ok::<_, SyntaxErrorView>(
                parsed_statements(config.statements@),
            ),
            Err(error) => parsed_config(text@) == Err::<Seq<StmtView>, _>(
                (SyntaxErrorView { message: error.message@, span: span_of(error.span) }),
            ),
        },
{
    ferronconf::Config::from_str(text)
}

/// Every statement that the parser found is kept, in its place: with its kind, its
/// name, where it begins, where its block opens, the protocols of its hosts, and the
/// statements in its block.
pub proof fn parsed_statements_are_kept(statements: Seq<ferronconf::Statement>, i: int)
    requires
        0 <= i < statements.len(),
    ensures
        parsed_statements(statements).len() == statements.len(),
        ({
            let kept = parsed_statements(statements)[i];
            match statements[i] {
                ferronconf::Statement::Directive(d) => {
                    &&& kept matches StmtView::Directive { name, body, span }
                    &&& name == d.name@
                    &&& span.line == d.span.line && span.column == d.span.column
                    &&& d.block is None ==> body is None
                    &&& d.block matches Some(b) ==> body matches Some(kept_body) && same_block(
                        kept_body,
                        b,
                    )
                },
                ferronconf::Statement::HostBlock(h) => {
                    &&& kept matches StmtView::HostBlock { hosts, block, span }
                    &&& hosts.len() == h.hosts@.len()
                    &&& forall|k: int|
                        0 <= k < hosts.len() ==> match h.hosts@[k].protocol {
                            Some(protocol) => #[trigger] hosts[k] == Some(protocol@),
                            None => hosts[k] is None,
                        }
                    &&& span.line == h.span.line && span.column == h.span.column
                    &&& same_block(block, h.block)
                },
                ferronconf::Statement::MatchBlock(m) => {
                    &&& kept matches StmtView::MatchBlock { span }
                    &&& span.line == m.span.line && span.column == m.span.column
                },
                ferronconf::Statement::GlobalBlock(b) => {
                    &&& kept matches StmtView::GlobalBlock { block }
                    &&& same_block(block, b)
                },
                ferronconf::Statement::SnippetBlock(t) => {
                    &&& kept matches StmtView::SnippetBlock { name, block, span }
                    &&& name == t.name@
                    &&& span.line == t.span.line && span.column == t.span.column
                    &&& same_block(block, t.block)
                },
                ferronconf::Statement::Comment(_, place) => {
                    &&& kept matches StmtView::Comment { span }
                    &&& span.line == place.line && span.column == place.column
                },
            }
        }),
{
}

/// Whether a block opens where a parsed one does, and holds what that one holds.
pub open spec fn same_block(block: BodyView, parsed: ferronconf::Block) -> bool {
    &&& block.span.line == parsed.span.line
    &&& block.span.column == parsed.span.column
    &&& block.statements == parsed_statements(parsed.statements@)
}

/// A statement stands for just what its fields say, and so do the statements in its
/// block.
pub proof fn statements_stand_for_their_fields(statement: Stmt)
    ensures
        match statement {
            Stmt::Directive { name, body, span } => {
                &&& statement_view(statement) matches StmtView::Directive {
                    name: seen,
                    body: seen_body,
                    span: seen_span,
                }
                &&& seen == name@
                &&& seen_span == span
                &&& body is None ==> seen_body is None
                &&& body matches Some(b) ==> seen_body matches Some(sb) && shows_block(sb, b)
            },
            Stmt::HostBlock { hosts, block, span } => {
                &&& statement_view(statement) matches StmtView::HostBlock {
                    hosts: seen,
                    block: seen_block,
                    span: seen_span,
                }
                &&& seen.len() == hosts@.len()
                &&& forall|k: int|
                    0 <= k < seen.len() ==> match hosts@[k].protocol {
                        Some(protocol) => #[trigger] seen[k] == Some(protocol@),
                        None => seen[k] is None,
                    }
                &&& seen_span == span
                &&& shows_block(seen_block, block)
            },
            Stmt::MatchBlock { span } => statement_view(statement) == (StmtView::MatchBlock {
                span,
            }),
            Stmt::GlobalBlock { block } => {
                &&& statement_view(statement) matches StmtView::GlobalBlock { block: seen_block }
                &&& shows_block(seen_block, block)
            },
            Stmt::SnippetBlock { name, block, span } => {
                &&& statement_view(statement) matches StmtView::SnippetBlock {
                    name: seen,
                    block: seen_block,
                    span: seen_span,
                }
                &&& seen == name@
                &&& seen_span == span
                &&& shows_block(seen_block, block)
            },
            Stmt::Comment { span } => statement_view(statement) == (StmtView::Comment { span }),
        },
{
}

/// Whether a view shows where a block opens and each of its statements.
pub open spec fn shows_block(view: BodyView, block: Body) -> bool {
    &&& view.span == block.span
    &&& view.statements.len() == block.statements@.len()
    &&& forall|k: int|
        0 <= k < block.statements@.len() ==> #[trigger] view.statements[k] == statement_view(
            block.statements@[k],
        )
}

fn span_from(span: &ferronconf::Span) -> (place: Place)
    ensures
        place == span_of(*span),
{
    Place { line: span.line, column: span.column }
}

fn hosts_from(hosts: &Vec<ferronconf::HostPattern>) -> (patterns: Vec<Host>)
    ensures
        host_protocols(patterns@) == Seq::new(
            hosts@.len(),
            |i: int| hosts@[i].protocol.deep_view(),
        ),
{
    let mut patterns: Vec<Host> = Vec::new();
    let mut i: usize = 0;
    while i < hosts.len()
        invariant
            i <= hosts@.len(),
            patterns@.len() == i,
            forall|k: int|
                0 <= k < i ==> (#[trigger] patterns@[k]).protocol.deep_view()
                    == hosts@[k].protocol.deep_view(),
        decreases hosts@.len() - i,
    {
        let protocol = match &hosts[i].protocol {
            Some(name) => Some(name.clone()),
            None => None,
        };
        patterns.push(Host { protocol });
        i += 1;
    }
    assert(host_protocols(patterns@) =~= Seq::new(
        hosts@.len(),
        |i: int| hosts@[i].protocol.deep_view(),
    ));
    patterns
}

fn statement_from(statement: &ferronconf::Statement) -> (converted: Stmt)
    ensures
        statement_view(converted) == parsed_statement(*statement),
    decreases *statement,
{
    match statement {
        ferronconf::Statement::Directive(d) => {
            let body = match &d.block {
                Some(b) => Some(block_from(b)),
                None => None,
            };
            Stmt::Directive { name: d.name.clone(), body, span: span_from(&d.span) }
        },
        ferronconf::Statement::HostBlock(h) => Stmt::HostBlock {
            hosts: hosts_from(&h.hosts),
            block: block_from(&h.block),
            span: span_from(&h.span),
        },
        ferronconf::Statement::MatchBlock(m) => Stmt::MatchBlock { span: span_from(&m.span) },
        ferronconf::Statement::GlobalBlock(b) => Stmt::GlobalBlock { block: block_from(b) },
        ferronconf::Statement::SnippetBlock(s) => Stmt::SnippetBlock {
            name: s.name.clone(),
            block: block_from(&s.block),
            span: span_from(&s.span),
        },
        ferronconf::Statement::Comment(_, span) => Stmt::Comment { span: span_from(span) },
    }
}

fn block_from(block: &ferronconf::Block) -> (converted: Body)
    ensures
        block_view(converted) == parsed_block(*block),
    decreases *block,
{
    Body { statements: statements_from(&block.statements), span: span_from(&block.span) }
}

fn statements_from(statements: &Vec<ferronconf::Statement>) -> (converted: Vec<Stmt>)
    ensures
        statement_views(converted@) == parsed_statements(statements@),
    decreases *statements,
{
    let mut converted: Vec<Stmt> = Vec::new();
    let mut i: usize = 0;
    while i < statements.len()
        invariant
            i <= statements@.len(),
            converted@.len() == i,
            forall|k: int|
                0 <= k < i ==> statement_view(#[trigger] converted@[k]) == parsed_statement(
                    statements@[k],
                ),
        decreases statements@.len() - i,
    {
        let statement = statement_from(&statements[i]);
        converted.push(statement);
        i += 1;
    }
    assert(statement_views(converted@) =~= parsed_statements(statements@));
    converted
}

/// What a result of [`parse_config`] stands for.
pub open spec fn parse_outcome(parsed: Result<Vec<Stmt>, SyntaxError>) -> Result<
    Seq<StmtView>,
    SyntaxErrorView,
> {
    match parsed {
        Ok(statements) => Ok(statement_views(statements@)),
        Err(error) => Err(error@),
    }
}

/// Parses the text of a file.
pub fn parse_config(text: &str) -> (parsed: Result<Vec<Stmt>, SyntaxError>)
    ensures
        parse_outcome(parsed) == parsed_config(text@),
{
    match parse_file(text) {
        Ok(config) => Ok(statements_from(&config.statements)),
        Err(error) => Err(SyntaxError { message: error.message, span: span_from(&error.span) }),
    }
}

} // verus!
