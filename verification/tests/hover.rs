use ferron_language_server::config::parse_config;
use ferron_language_server::directives::{DirectiveEntry, DirectiveRegistry, Section};
use ferron_language_server::hover::{describe, hover, hover_in};
use ferron_language_server::protocol::{Position, Range};

fn entry() -> DirectiveEntry {
    DirectiveEntry {
        name: "tls".to_string(),
        usage: "tls { ... }".to_string(),
        description: "Sets up TLS.".to_string(),
        applicable_protocols: Some(vec!["http".to_string(), "tcp".to_string()]),
        global_only: true,
        subblock_link: Some("tls_block".to_string()),
    }
}

fn registry() -> DirectiveRegistry {
    let mut registry = DirectiveRegistry::empty();
    registry.insert(Section { name: "default".to_string(), entries: vec![entry()] });
    registry
}

const DESCRIPTION: &str = "**`tls`**\n\nSets up TLS.\n\n---\n\n**Usage:** `tls { ... }`\n\n\
**Protocols:** http, tcp\n**Scope:** global only\n**Subblock:** `tls_block`\n";

#[test]
fn full_description() {
    assert_eq!(describe(&entry()), DESCRIPTION);
}

#[test]
fn short_description() {
    let short = DirectiveEntry {
        applicable_protocols: None,
        global_only: false,
        subblock_link: None,
        ..entry()
    };
    assert_eq!(
        describe(&short),
        "**`tls`**\n\nSets up TLS.\n\n---\n\n**Usage:** `tls { ... }`\n\n"
    );
}

#[test]
fn hover_on_a_name() {
    let text = "{\n  tls on\n}\n";
    let shown = hover(text, Position { line: 1, character: 3 }, &registry()).unwrap();
    assert_eq!(shown.markdown, DESCRIPTION);
    assert_eq!(
        shown.range,
        Range {
            start: Position { line: 1, character: 2 },
            end: Position { line: 1, character: 5 },
        }
    );
}

#[test]
fn hover_on_something_else() {
    let text = "{\n  tls tls\n  other\n}\ntls on\n";
    let registry = registry();
    assert_eq!(hover(text, Position { line: 1, character: 7 }, &registry), None);
    assert_eq!(hover(text, Position { line: 2, character: 3 }, &registry), None);
    assert_eq!(hover(text, Position { line: 1, character: 0 }, &registry), None);
    assert_eq!(hover(text, Position { line: 4, character: 1 }, &registry), None);
}

#[test]
fn hover_in_a_file_that_does_not_parse() {
    let text = "include a\n}\ntls\n";
    let parsed = parse_config(text);
    assert!(parsed.is_err());
    let registry = registry();
    let shown = hover_in(&parsed, text, Position { line: 0, character: 0 }, &registry).unwrap();
    assert_eq!(
        shown.markdown,
        "**`include`**\n\nInclude another configuration file. Supports glob patterns.\n\n---\n\n\
**Usage:** `include <path>`\n\n"
    );
    assert_eq!(hover_in(&parsed, text, Position { line: 2, character: 0 }, &registry), None);
}
