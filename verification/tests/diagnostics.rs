use ferron_language_server::config::{Place, SyntaxError};
use ferron_language_server::diagnostics::{
    can_mark, can_mark_all, diagnostics_in, doctor_diagnostics, end_column, is_config_file,
    publish_diagnostics_for_uri, severity,
};
use ferron_language_server::directives::{ValidationDiagnostic, ValidationResult};
use ferron_language_server::protocol::{Diagnostic, Position, Range, Severity};

fn range(line: u32, start: u32, end: u32) -> Range {
    Range {
        start: Position { line, character: start },
        end: Position { line, character: end },
    }
}

#[test]
fn nothing_wrong() {
    assert_eq!(publish_diagnostics_for_uri("example.com {\n  root /var\n}\n"), Vec::new());
}

#[test]
fn unclosed_block() {
    assert_eq!(
        publish_diagnostics_for_uri("example.com {"),
        vec![Diagnostic {
            range: range(0, 13, 14),
            severity: Severity::Error,
            message: "Unexpected end of file, expected '}'".to_string(),
            source: "ferronconf".to_string(),
        }]
    );
}

#[test]
fn invalid_escape() {
    let found = publish_diagnostics_for_uri("# comment\nname \"a\\q\"\n");
    assert_eq!(found.len(), 1);
    assert_eq!(found[0].range, range(1, 7, 8));
    assert_eq!(found[0].message, "Invalid escape sequence \\q");
}

#[test]
fn errors_at_the_very_beginning() {
    let error = SyntaxError { message: "m".to_string(), span: Place { line: 0, column: 0 } };
    assert_eq!(diagnostics_in(&Err(error))[0].range, range(0, 0, 0));
    assert_eq!(diagnostics_in(&Ok(Vec::new())), Vec::new());
}

#[test]
fn names_of_configuration_files() {
    assert!(is_config_file(Some("ferron.conf")));
    assert!(is_config_file(Some("site.ferron")));
    assert!(is_config_file(Some(".ferron")));
    assert!(is_config_file(Some("site.ferron.conf")));
    assert!(!is_config_file(Some("nginx.conf")));
    assert!(!is_config_file(Some("myferron.conf")));
    assert!(!is_config_file(Some("ferron")));
    assert!(!is_config_file(None));
}

#[test]
fn severities() {
    assert_eq!(severity("Invalid configuration"), Severity::Error);
    assert_eq!(severity("Unknown directive"), Severity::Warning);
    assert_eq!(severity("Best practice violation"), Severity::Information);
    assert_eq!(severity("invalid configuration"), Severity::Warning);
}

#[test]
fn marks_end_at_whitespace() {
    let text = "root /x\nfoo bar";
    assert_eq!(end_column(text, 0, 0), 4);
    assert_eq!(end_column(text, 1, 0), 3);
    assert_eq!(end_column(text, 1, 3), 7);
    assert_eq!(end_column(text, 1, 6), 7);
    assert_eq!(end_column(text, 1, 90), 7);
    assert_eq!(end_column(text, 2, 5), 1);
    assert_eq!(end_column("aé\u{a0}b", 0, 0), 3);
}

#[test]
fn marks_between_bytes() {
    assert!(!can_mark("é x", 0, 0));
    assert!(can_mark("é x", 0, 1));
    assert_eq!(end_column("é x", 0, 1), 2);
    assert!(can_mark("é x", 1, 0));
    assert!(!can_mark("x", 0, u32::MAX));
}

fn finding(kind: &str, line: Option<usize>, column: Option<usize>) -> ValidationDiagnostic {
    ValidationDiagnostic {
        kind: kind.to_string(),
        message: format!("{}!", kind),
        line,
        column,
        scope: None,
    }
}

#[test]
fn findings_of_the_doctor() {
    let text = "a b\n  tls on\n";
    let result = ValidationResult {
        valid: false,
        diagnostics: vec![
            finding("Unknown directive", Some(2), Some(3)),
            finding("Invalid configuration", None, None),
        ],
    };
    assert!(can_mark_all(&result, text));
    assert_eq!(
        doctor_diagnostics(&result, text),
        vec![
            Diagnostic {
                range: range(1, 2, 5),
                severity: Severity::Warning,
                message: "Unknown directive!".to_string(),
                source: "ferron doctor".to_string(),
            },
            Diagnostic {
                range: range(0, 0, 1),
                severity: Severity::Error,
                message: "Invalid configuration!".to_string(),
                source: "ferron doctor".to_string(),
            },
        ]
    );
    assert!(!can_mark_all(&result, "é b"));
}
