use ferron_language_server::ferron_dl::{
    already_obtained, archive_url, entry_action, entry_path, executable_mode, EntryAction,
};

#[test]
fn locations_of_archives() {
    assert_eq!(
        archive_url("3.0.0\n", "x86_64-unknown-linux-gnu", false),
        "https://dl.ferron.sh/3.0.0/ferron-3.0.0-x86_64-unknown-linux-gnu.tar.gz"
    );
    assert_eq!(
        archive_url(" 3.1.2", "x86_64-pc-windows-msvc", true),
        "https://dl.ferron.sh/3.1.2/ferron-3.1.2-x86_64-pc-windows-msvc.zip"
    );
}

#[test]
fn downloaded_once() {
    assert!(already_obtained(true, false));
    assert!(already_obtained(false, true));
    assert!(!already_obtained(false, false));
}

#[test]
fn readers_can_execute() {
    assert_eq!(executable_mode(0o644), 0o755);
    assert_eq!(executable_mode(0o100600), 0o100700);
    assert_eq!(executable_mode(0o240), 0o250);
    assert_eq!(executable_mode(0o311), 0o311);
    assert_eq!(executable_mode(0o755), 0o755);
}

#[test]
fn paths_of_entries() {
    assert_eq!(entry_path("bin/ferron.exe"), vec!["bin", "ferron.exe"]);
    assert_eq!(entry_path("a\\b/c"), vec!["a", "b", "c"]);
    assert_eq!(entry_path("dir/"), vec!["dir", ""]);
    assert_eq!(entry_path(""), vec![""]);
}

#[test]
fn paths_stay_inside() {
    assert_eq!(entry_path("..\\../C:/con.txt"), vec!["", "", "C", ""]);
    assert_eq!(entry_path("/a. /b?"), vec!["", "a", "b"]);
    for path in ["../x", "./.", "...", "a/../../b", "\\\\server\\share", "C:\\x", "a:b/:"] {
        for step in entry_path(path) {
            assert!(step != "." && step != ".." && !step.contains(['/', '\\', ':']));
        }
    }
}

#[test]
fn actions_for_entries() {
    assert_eq!(entry_action(true, true, None), EntryAction::Nothing);
    assert_eq!(entry_action(true, false, Some(true)), EntryAction::CreateDirectory);
    assert_eq!(
        entry_action(false, true, Some(true)),
        EntryAction::WriteFile { create_parent: false }
    );
    assert_eq!(
        entry_action(false, false, Some(false)),
        EntryAction::WriteFile { create_parent: true }
    );
    assert_eq!(entry_action(false, false, None), EntryAction::Fail);
}
