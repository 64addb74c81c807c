use ferron_language_server::directives::{
    directives_json, doctor_arguments, doctor_json, entry_named, run_doctor, CommandOutput,
    DirectiveEntry, DirectiveRegistry, DoctorReport, DoctorRun, ReportedDiagnostic, ReportedSpan,
    Section, ValidationDiagnostic, ValidationResult,
};

fn entry(name: &str, usage: &str) -> DirectiveEntry {
    DirectiveEntry {
        name: name.to_string(),
        usage: usage.to_string(),
        description: "d".to_string(),
        applicable_protocols: Some(vec!["http".to_string()]),
        global_only: false,
        subblock_link: Some("s".to_string()),
    }
}

fn section(name: &str, entries: Vec<DirectiveEntry>) -> Section {
    Section { name: name.to_string(), entries }
}

#[test]
fn empty_registry() {
    let registry = DirectiveRegistry::empty();
    assert_eq!(registry.sections, Vec::new());
    assert_eq!(registry.section("default"), None);
    assert_eq!(registry.find_anywhere("tls"), None);
    assert_eq!(DirectiveRegistry::from_json(None), registry);
}

#[test]
fn sections_of_a_registry() {
    let registry = DirectiveRegistry::from_json(Some(vec![
        section("default", vec![entry("tls", "1"), entry("tls", "2")]),
        section("other", vec![entry("root", "3"), entry("tls", "4")]),
    ]));
    assert_eq!(registry.section("other").unwrap().len(), 2);
    assert_eq!(registry.position("other"), 1);
    assert_eq!(registry.position("third"), 2);
    assert_eq!(registry.find_in("default", "tls"), Some(&entry("tls", "1")));
    assert_eq!(registry.find_in("other", "tls"), Some(&entry("tls", "4")));
    assert_eq!(registry.find_in("default", "root"), None);
    assert_eq!(registry.find_in("third", "tls"), None);
    assert_eq!(registry.find_anywhere("root"), Some(&entry("root", "3")));
    assert_eq!(registry.find_anywhere("tls"), Some(&entry("tls", "1")));
}

#[test]
fn later_sections_replace_earlier_ones() {
    let registry = DirectiveRegistry::from_json(Some(vec![
        section("a", vec![entry("x", "1")]),
        section("b", vec![]),
        section("a", vec![entry("y", "2")]),
    ]));
    assert_eq!(
        registry.sections,
        vec![section("a", vec![entry("y", "2")]), section("b", vec![])]
    );
}

#[test]
fn inserting_a_section() {
    let mut registry = DirectiveRegistry::empty();
    registry.insert(section("a", vec![entry("x", "1")]));
    registry.insert(section("b", vec![]));
    registry.insert(section("b", vec![entry("y", "2")]));
    assert_eq!(registry.sections.len(), 2);
    assert_eq!(registry.section("a").unwrap(), &vec![entry("x", "1")]);
    assert_eq!(registry.section("b").unwrap(), &vec![entry("y", "2")]);
}

#[test]
fn entries_by_name() {
    let entries = vec![entry("a", "1"), entry("b", "2"), entry("b", "3")];
    assert_eq!(entry_named(&entries, "b"), Some(&entries[1]));
    assert_eq!(entry_named(&entries, "c"), None);
    assert_eq!(entries[0].clone(), entries[0]);
}

#[test]
fn listing_of_directives() {
    assert_eq!(directives_json(&None), None);
    let listing = CommandOutput { success: true, stdout: b"{}\n".to_vec() };
    assert_eq!(directives_json(&Some(listing)), Some("{}\n".to_string()));
    let failed = CommandOutput { success: false, stdout: b"{}".to_vec() };
    assert_eq!(directives_json(&Some(failed)), None);
}

#[test]
fn calling_the_doctor() {
    assert_eq!(
        doctor_arguments("/etc/ferron.conf"),
        vec!["doctor", "--json", "-c", "/etc/ferron.conf", "--config-adapter", "ferronconf"]
    );
    let output = CommandOutput { success: false, stdout: b"\n {\"valid\": true} \n".to_vec() };
    assert_eq!(doctor_json(&output), "{\"valid\": true}");
    let output = CommandOutput { success: true, stdout: vec![32, 200, 33] };
    assert_eq!(doctor_json(&output), "\u{fffd}!");
}

#[test]
fn doctors_without_a_report() {
    let fine = ValidationResult { valid: true, diagnostics: Vec::new() };
    let broken = ValidationResult { valid: false, diagnostics: Vec::new() };
    assert_eq!(run_doctor(&DoctorRun::NotRun), fine);
    assert_eq!(run_doctor(&DoctorRun::Unreadable { success: true }), fine);
    assert_eq!(run_doctor(&DoctorRun::Unreadable { success: false }), broken);
}

#[test]
fn report_of_the_doctor() {
    let reported = |span: Option<ReportedSpan>| ReportedDiagnostic {
        kind: "Unknown directive".to_string(),
        message: "m".to_string(),
        span,
        scope: Some("global".to_string()),
    };
    let found = |line: Option<usize>, column: Option<usize>| ValidationDiagnostic {
        kind: "Unknown directive".to_string(),
        message: "m".to_string(),
        line,
        column,
        scope: Some("global".to_string()),
    };
    let report = DoctorReport {
        valid: false,
        diagnostics: vec![
            reported(Some(ReportedSpan { line: Some(3), column: Some(7) })),
            reported(Some(ReportedSpan { line: Some(4), column: None })),
            reported(None),
        ],
    };
    let result = run_doctor(&DoctorRun::Reported { report });
    assert_eq!(
        result,
        ValidationResult {
            valid: false,
            diagnostics: vec![found(Some(3), Some(7)), found(Some(4), None), found(None, None)],
        }
    );
    assert_eq!(result.clone(), result);
}
