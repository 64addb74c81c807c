use ferron_language_server::directives::{DirectiveEntry, DirectiveRegistry, Section};
use ferron_language_server::protocol::Position;
use ferron_language_server::server::Backend;

const URI: &str = "file:///etc/ferron.conf";

fn registry() -> DirectiveRegistry {
    let mut registry = DirectiveRegistry::empty();
    registry.insert(Section {
        name: "default".to_string(),
        entries: vec![DirectiveEntry {
            name: "tls".to_string(),
            usage: "tls { ... }".to_string(),
            description: "Sets up TLS.".to_string(),
            applicable_protocols: None,
            global_only: false,
            subblock_link: None,
        }],
    });
    registry
}

fn here() -> Position {
    Position { line: 1, character: 1 }
}

#[test]
fn documents_are_remembered() {
    let mut backend = Backend::new();
    assert_eq!(backend.text_of(URI), None);
    assert_eq!(backend.did_open(URI.to_string(), "a {".to_string()).len(), 1);
    assert_eq!(backend.text_of(URI).unwrap(), "a {");
    assert_eq!(backend.text_of("file:///other"), None);
}

#[test]
fn the_last_change_counts() {
    let mut backend = Backend::new();
    backend.did_open(URI.to_string(), "a {".to_string());
    backend.did_open("file:///other".to_string(), "b".to_string());
    assert_eq!(backend.did_change(URI.to_string(), &Vec::new()), None);
    assert_eq!(backend.text_of(URI).unwrap(), "a {");
    let changes = vec!["x {".to_string(), "y z".to_string()];
    assert_eq!(backend.did_change(URI.to_string(), &changes), Some(Vec::new()));
    assert_eq!(backend.text_of(URI).unwrap(), "y z");
    assert_eq!(backend.text_of("file:///other").unwrap(), "b");
}

#[test]
fn answers_need_a_document_and_directives() {
    let mut backend = Backend::new();
    assert_eq!(backend.hover(URI, here()), None);
    backend.did_open(URI.to_string(), "{\ntls on\n}".to_string());
    assert_eq!(backend.hover(URI, here()), None);
    assert_eq!(backend.completion(URI, here()), None);
    backend.fetch_directives(registry());
    assert!(backend.hover(URI, here()).is_some());
    assert_eq!(backend.completion(URI, here()).unwrap()[0].label, "tls");
    assert_eq!(backend.hover("file:///other", here()), None);
    assert_eq!(backend.completion("file:///other", here()), None);
}

#[test]
fn answers_follow_changes() {
    let mut backend = Backend::new();
    backend.fetch_directives(registry());
    backend.did_open(URI.to_string(), "{\ntls on\n}".to_string());
    assert!(backend.hover(URI, here()).is_some());
    backend.did_change(URI.to_string(), &vec!["{\nroot x\n}".to_string()]);
    assert_eq!(backend.hover(URI, here()), None);
}

#[test]
fn values_are_left_alone() {
    let mut backend = Backend::new();
    backend.fetch_directives(DirectiveRegistry::empty());
    backend.did_open(URI.to_string(), "include /etc/x.conf".to_string());
    assert_eq!(backend.completion(URI, Position { line: 0, character: 12 }), None);
    assert!(backend.completion(URI, Position { line: 0, character: 2 }).is_some());
}
