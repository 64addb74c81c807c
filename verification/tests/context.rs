use ferron_language_server::config::{parse_config, Body, Host, Place, Stmt};
use ferron_language_server::context::{
    context_of, find_block_end_from, find_block_end_pos, find_context_at_position,
    lookup_entry_in_context, resolve_subblock_link, BlockContext,
};
use ferron_language_server::directives::{DirectiveEntry, DirectiveRegistry, Section};
use ferron_language_server::protocol::Position;

const FILE: &str = "{
    admin {
        listen 1
    }
}

tcp *:5432 {
    tls {
        provider \"acme\"
    }
    root /var/www
}

snippet common {
    tls {
    }
}

match api {
    request.method == \"GET\"
}
";

fn entry(name: &str, subblock: Option<&str>) -> DirectiveEntry {
    DirectiveEntry {
        name: name.to_string(),
        usage: format!("{} ...", name),
        description: format!("About {}.", name),
        applicable_protocols: None,
        global_only: false,
        subblock_link: subblock.map(|s| s.to_string()),
    }
}

fn registry() -> DirectiveRegistry {
    DirectiveRegistry::from_json(Some(vec![
        Section {
            name: "default".to_string(),
            entries: vec![
                entry("admin", Some("admin_block")),
                entry("tls", Some("tls_block")),
                entry("root", None),
            ],
        },
        Section { name: "admin_block".to_string(), entries: vec![entry("listen", None)] },
        Section { name: "tls_block".to_string(), entries: vec![entry("provider", Some("acme"))] },
    ]))
}

fn context(line: u32, character: u32) -> BlockContext {
    context_of(&parse_config(FILE), FILE, Position { line, character }, &registry())
}

fn host() -> BlockContext {
    BlockContext::HostBlock { protocol: Some("tcp".to_string()) }
}

#[test]
fn parsed_file() {
    let parsed = parse_config("http a.com, b.com {\n  root x {\n  }\n}\n# end\n").unwrap();
    assert_eq!(parsed.len(), 2);
    match &parsed[0] {
        Stmt::HostBlock { hosts, block, span } => {
            assert_eq!(hosts[0], Host { protocol: Some("http".to_string()) });
            assert_eq!(*span, Place { line: 1, column: 1 });
            assert_eq!(block.span, Place { line: 1, column: 19 });
            assert_eq!(
                block.statements,
                vec![Stmt::Directive {
                    name: "root".to_string(),
                    body: Some(Body {
                        statements: Vec::new(),
                        span: Place { line: 2, column: 10 },
                    }),
                    span: Place { line: 2, column: 3 },
                }]
            );
        }
        other => panic!("{:?}", other),
    }
    assert_eq!(parsed[1], Stmt::Comment { span: Place { line: 5, column: 1 } });
    assert_eq!(parsed[1].span(), Place { line: 5, column: 1 });
}

#[test]
fn outside_of_blocks() {
    assert_eq!(context(5, 0), BlockContext::TopLevel);
    assert_eq!(context(6, 3), BlockContext::TopLevel);
    assert_eq!(context(19, 5), BlockContext::TopLevel);
    assert_eq!(context(90, 0), BlockContext::TopLevel);
}

fn context_in(text: &str, line: u32, character: u32) -> BlockContext {
    let parsed = parse_config(text);
    assert!(parsed.is_ok());
    context_of(&parsed, text, Position { line, character }, &DirectiveRegistry::empty())
}

#[test]
fn behind_a_block() {
    assert_eq!(context(11, 1), BlockContext::TopLevel);
    assert_eq!(context(11, 30), BlockContext::TopLevel);
    assert_eq!(context(3, 5), BlockContext::GlobalBlock);
    let text = "example.com {\n}   \n";
    assert_eq!(context_in(text, 1, 0), BlockContext::HostBlock { protocol: None });
    assert_eq!(context_in(text, 1, 3), BlockContext::TopLevel);
}

#[test]
fn before_a_block() {
    for text in ["a.com\nb.com {\n}\n", "a.com,\nb.com {\n}\n"] {
        assert_eq!(context_in(text, 0, 0), BlockContext::TopLevel);
        assert_eq!(context_in(text, 1, 0), BlockContext::TopLevel);
        assert_eq!(context_in(text, 1, 6), BlockContext::HostBlock { protocol: None });
    }
}

#[test]
fn blocks_on_one_line() {
    let text = "{ a { } b { } }\nx.com {\n} y.com {\n}\n";
    let block = |name: &str| BlockContext::DirectiveBlock {
        name: name.to_string(),
        subblock_link: None,
        parent: Box::new(BlockContext::GlobalBlock),
    };
    assert_eq!(context_in(text, 0, 2), BlockContext::GlobalBlock);
    assert_eq!(context_in(text, 0, 5), block("a"));
    assert_eq!(context_in(text, 0, 8), BlockContext::GlobalBlock);
    assert_eq!(context_in(text, 0, 11), block("b"));
    assert_eq!(context_in(text, 0, 15), BlockContext::TopLevel);
    assert_eq!(context_in(text, 2, 0), BlockContext::HostBlock { protocol: None });
    assert_eq!(context_in(text, 2, 4), BlockContext::TopLevel);
    assert_eq!(context_in(text, 2, 8), BlockContext::HostBlock { protocol: None });
    assert_eq!(context_in(text, 3, 1), BlockContext::TopLevel);
}

#[test]
fn statements_below_the_cursor() {
    let statements = vec![Stmt::HostBlock {
        hosts: Vec::new(),
        block: Body { statements: Vec::new(), span: Place { line: 1, column: 3 } },
        span: Place { line: 3, column: 1 },
    }];
    let position = Position { line: 1, character: 0 };
    assert_eq!(
        find_context_at_position(&statements, "a {\n\n}", position, &DirectiveRegistry::empty()),
        BlockContext::TopLevel
    );
}

#[test]
fn inside_of_blocks() {
    assert_eq!(context(0, 0), BlockContext::GlobalBlock);
    assert_eq!(context(1, 6), BlockContext::GlobalBlock);
    assert_eq!(context(6, 11), host());
    assert_eq!(context(10, 6), host());
    assert_eq!(context(11, 0), host());
    assert_eq!(context(14, 5), BlockContext::SnippetBlock { name: "common".to_string() });
}

#[test]
fn inside_of_nested_blocks() {
    assert_eq!(
        context(2, 10),
        BlockContext::DirectiveBlock {
            name: "admin".to_string(),
            subblock_link: Some("admin_block".to_string()),
            parent: Box::new(BlockContext::GlobalBlock),
        }
    );
    assert_eq!(
        context(8, 10),
        BlockContext::DirectiveBlock {
            name: "tls".to_string(),
            subblock_link: Some("tls_block".to_string()),
            parent: Box::new(host()),
        }
    );
}

#[test]
fn unparsed_files_have_no_blocks() {
    let text = "example.com {\n  root\n";
    let parsed = parse_config(text);
    assert!(parsed.is_err());
    let position = Position { line: 1, character: 3 };
    assert_eq!(context_of(&parsed, text, position, &registry()), BlockContext::TopLevel);
}

#[test]
fn hosts_without_protocol() {
    let statements = vec![Stmt::HostBlock {
        hosts: Vec::new(),
        block: Body { statements: Vec::new(), span: Place { line: 1, column: 3 } },
        span: Place { line: 1, column: 1 },
    }];
    assert_eq!(
        find_context_at_position(
            &statements,
            "a {\n\n}",
            Position { line: 1, character: 0 },
            &DirectiveRegistry::empty()
        ),
        BlockContext::HostBlock { protocol: None }
    );
}

#[test]
fn ends_of_blocks() {
    assert_eq!(find_block_end_pos("a {\n  b {\n  }\n}\nc {\n}", 0), (3, 0));
    assert_eq!(find_block_end_pos("a {\n  b {\n  }\n}\nc {\n}", 1), (2, 2));
    assert_eq!(find_block_end_pos("é { x }", 0), (0, 6));
    assert_eq!(find_block_end_pos("} {\n}\n}", 0), (1, 0));
    assert_eq!(find_block_end_pos("a {\n} b {\n  x\n}\nz\n", 1), (3, 0));
    assert_eq!(find_block_end_pos("a {\n} b {\n  x\n}\nz\n", 0), (1, 0));
    assert_eq!(find_block_end_pos("a\nb {\n}\n}", 0), (2, 0));
}

#[test]
fn ends_of_blocks_by_column() {
    let text = "a { } b {\n  c { }\n}\nz";
    assert_eq!(find_block_end_pos(text, 0), (0, 4));
    assert_eq!(find_block_end_from(text, 0, 2), (0, 4));
    assert_eq!(find_block_end_from(text, 0, 8), (2, 0));
    assert_eq!(find_block_end_from(text, 1, 4), (1, 6));
    assert_eq!(find_block_end_from(text, 1, 40), (3, 0));
    assert_eq!(find_block_end_from(text, 9, 0), (3, 0));
}

#[test]
fn blocks_that_do_not_end() {
    assert_eq!(find_block_end_pos("", 0), (0, 0));
    assert_eq!(find_block_end_pos("x {\nyé", 0), (1, 2));
    assert_eq!(find_block_end_pos("x {\n\n\n", 0), (2, 0));
    assert_eq!(find_block_end_pos("{}", 7), (0, 1));
}

#[test]
fn entries_by_context() {
    let registry = registry();
    let found = lookup_entry_in_context("include", &BlockContext::TopLevel, &registry).unwrap();
    assert_eq!(found.usage, "include <path>");
    assert_eq!(
        found.description,
        "Include another configuration file. Supports glob patterns."
    );
    assert_eq!(lookup_entry_in_context("tls", &BlockContext::TopLevel, &registry), None);
    assert_eq!(
        lookup_entry_in_context("tls", &BlockContext::GlobalBlock, &registry),
        Some(entry("tls", Some("tls_block")))
    );
    assert_eq!(lookup_entry_in_context("provider", &host(), &registry), None);
    let snippet = BlockContext::SnippetBlock { name: "s".to_string() };
    assert_eq!(
        lookup_entry_in_context("listen", &snippet, &registry),
        Some(entry("listen", None))
    );
    let unlinked = BlockContext::DirectiveBlock {
        name: "root".to_string(),
        subblock_link: None,
        parent: Box::new(host()),
    };
    assert_eq!(lookup_entry_in_context("root", &unlinked, &registry), None);
}

#[test]
fn links_by_context() {
    let registry = registry();
    let tls = BlockContext::DirectiveBlock {
        name: "tls".to_string(),
        subblock_link: Some("tls_block".to_string()),
        parent: Box::new(host()),
    };
    for (name, context, link) in [
        ("include", BlockContext::TopLevel, None),
        ("tls", BlockContext::TopLevel, None),
        ("tls", BlockContext::GlobalBlock, Some("tls_block")),
        ("tls", host(), Some("tls_block")),
        ("root", host(), None),
        ("provider", tls, Some("acme")),
        ("admin", BlockContext::SnippetBlock { name: "s".to_string() }, Some("admin_block")),
    ] {
        assert_eq!(
            resolve_subblock_link(name, &context, &registry),
            link.map(|l: &str| l.to_string())
        );
        assert_eq!(
            lookup_entry_in_context(name, &context, &registry).and_then(|e| e.subblock_link),
            link.map(|l: &str| l.to_string())
        );
    }
}
