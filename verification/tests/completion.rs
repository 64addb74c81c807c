use ferron_language_server::completion::{complete_in_context, completion, completion_in};
use ferron_language_server::config::parse_config;
use ferron_language_server::context::{lookup_entry_in_context, BlockContext};
use ferron_language_server::directives::{DirectiveEntry, DirectiveRegistry, Section};
use ferron_language_server::protocol::{
    CompletionItem, CompletionItemKind, InsertTextFormat, Position,
};

fn entry(name: &str, protocols: Option<Vec<&str>>, global_only: bool) -> DirectiveEntry {
    DirectiveEntry {
        name: name.to_string(),
        usage: format!("{} ...", name),
        description: format!("About {}.", name),
        applicable_protocols: protocols.map(|p| p.iter().map(|s| s.to_string()).collect()),
        global_only,
        subblock_link: None,
    }
}

fn registry() -> DirectiveRegistry {
    DirectiveRegistry::from_json(Some(vec![
        Section {
            name: "default".to_string(),
            entries: vec![
                entry("admin", None, true),
                entry("Tls", Some(vec!["http", "tcp"]), false),
                entry("tcp_nodelay", Some(vec!["tcp"]), false),
                entry("root", None, false),
            ],
        },
        Section { name: "tls_block".to_string(), entries: vec![entry("provider", None, false)] },
    ]))
}

fn labels(items: Vec<CompletionItem>) -> Vec<String> {
    items.into_iter().map(|i| i.label).collect()
}

fn in_context(context: BlockContext, word: &str) -> Vec<String> {
    labels(complete_in_context(&context, word, &registry()))
}

fn host(protocol: Option<&str>) -> BlockContext {
    BlockContext::HostBlock { protocol: protocol.map(|p| p.to_string()) }
}

#[test]
fn top_level_keywords() {
    let items = complete_in_context(&BlockContext::TopLevel, "", &registry());
    assert_eq!(items.len(), 3);
    assert_eq!(
        items[0],
        CompletionItem {
            label: "include".to_string(),
            kind: CompletionItemKind::Keyword,
            detail: "include <path>".to_string(),
            documentation: "Include another configuration file. Supports glob patterns."
                .to_string(),
            insert_text: "include ".to_string(),
            insert_text_format: InsertTextFormat::PlainText,
        }
    );
    assert_eq!(items[1].label, "snippet");
    assert_eq!(items[1].insert_text, "snippet ${1:name} {\n\t$0\n}");
    assert_eq!(items[1].insert_text_format, InsertTextFormat::Snippet);
    assert_eq!(items[2].label, "match");
    assert_eq!(items[2].detail, "match <name> { ... }");
    assert_eq!(in_context(BlockContext::TopLevel, "m"), vec!["match"]);
    assert!(in_context(BlockContext::TopLevel, "x").is_empty());
}

#[test]
fn global_block_directives() {
    assert_eq!(
        in_context(BlockContext::GlobalBlock, ""),
        vec!["admin", "Tls", "tcp_nodelay", "root"]
    );
    assert_eq!(in_context(BlockContext::GlobalBlock, "t"), vec!["Tls", "tcp_nodelay"]);
    assert_eq!(in_context(BlockContext::GlobalBlock, "tl"), vec!["Tls"]);
}

#[test]
fn host_block_directives() {
    assert_eq!(in_context(host(None), ""), vec!["Tls", "root"]);
    assert_eq!(in_context(host(Some("http")), ""), vec!["Tls", "root"]);
    assert_eq!(in_context(host(Some("tcp")), ""), vec!["Tls", "tcp_nodelay", "root"]);
    assert_eq!(in_context(host(Some("udp")), "r"), vec!["root"]);
}

#[test]
fn directive_block_directives() {
    let linked = |link: Option<&str>| BlockContext::DirectiveBlock {
        name: "tls".to_string(),
        subblock_link: link.map(|l| l.to_string()),
        parent: Box::new(BlockContext::GlobalBlock),
    };
    assert_eq!(in_context(linked(Some("tls_block")), ""), vec!["provider"]);
    assert!(in_context(linked(Some("unknown")), "").is_empty());
    assert!(in_context(linked(None), "").is_empty());
}

#[test]
fn snippet_block_directives() {
    let snippet = BlockContext::SnippetBlock { name: "s".to_string() };
    assert_eq!(in_context(snippet, ""), vec!["admin", "Tls", "tcp_nodelay", "root", "provider"]);
}

#[test]
fn completing_a_word() {
    let text = "{\n  TL\n}\n";
    let items = completion(text, Position { line: 1, character: 4 }, &registry()).unwrap();
    assert_eq!(
        items,
        vec![CompletionItem {
            label: "Tls".to_string(),
            kind: CompletionItemKind::Keyword,
            detail: "Tls ...".to_string(),
            documentation: "About Tls.".to_string(),
            insert_text: "Tls ".to_string(),
            insert_text_format: InsertTextFormat::PlainText,
        }]
    );
}

#[test]
fn values_are_not_completed() {
    let text = "{\n  tls on\n}\n";
    for character in 6..9 {
        assert_eq!(completion(text, Position { line: 1, character }, &registry()), None);
    }
    let text = "include /etc/x.conf  ";
    for character in [8, 12, 19, 20, 21, 90] {
        assert_eq!(completion(text, Position { line: 0, character }, &registry()), None);
    }
    assert!(completion(text, Position { line: 0, character: 3 }, &registry()).is_some());
}

#[test]
fn completing_what_is_no_word_yet() {
    let text = "  a.b/ c\n";
    let items = completion(text, Position { line: 0, character: 4 }, &registry()).unwrap();
    assert_eq!(labels(items), vec!["include", "snippet", "match"]);
    assert_eq!(completion(text, Position { line: 0, character: 8 }, &registry()), None);
    for (line, character) in [(0, 0), (0, 1), (1, 0), (1, 5), (7, 0)] {
        assert!(completion(text, Position { line, character }, &registry()).is_some());
    }
}

#[test]
fn completing_where_there_is_no_word() {
    let text = "{\n\n}\n";
    let items = completion(text, Position { line: 1, character: 0 }, &registry()).unwrap();
    assert_eq!(labels(items), vec!["admin", "Tls", "tcp_nodelay", "root"]);
}

#[test]
fn completing_in_a_file_that_does_not_parse() {
    let text = "{\n  inc\n";
    let parsed = parse_config(text);
    assert!(parsed.is_err());
    let items = completion_in(&parsed, text, Position { line: 1, character: 5 }, &registry());
    assert_eq!(labels(items.unwrap()), vec!["include"]);
}

#[test]
fn what_is_described_is_offered() {
    let registry = registry();
    let snippet = BlockContext::SnippetBlock { name: "s".to_string() };
    for (context, name, word) in [
        (BlockContext::GlobalBlock, "admin", "admin"),
        (host(None), "Tls", "tls"),
        (snippet, "provider", "provider"),
    ] {
        assert!(lookup_entry_in_context(name, &context, &registry).is_some());
        assert_eq!(labels(complete_in_context(&context, word, &registry)), vec![name]);
    }
    assert!(lookup_entry_in_context("admin", &host(None), &registry).is_some());
    assert!(complete_in_context(&host(None), "admin", &registry).is_empty());
}

#[test]
fn order_of_sections() {
    let mut reversed = registry();
    reversed.sections.reverse();
    for context in [BlockContext::GlobalBlock, host(Some("tcp")), BlockContext::TopLevel] {
        assert_eq!(
            complete_in_context(&context, "", &reversed),
            complete_in_context(&context, "", &registry())
        );
    }
    let snippet = BlockContext::SnippetBlock { name: "s".to_string() };
    assert_eq!(
        labels(complete_in_context(&snippet, "", &reversed)),
        vec!["provider", "admin", "Tls", "tcp_nodelay", "root"]
    );
}
