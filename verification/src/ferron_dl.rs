//! Obtaining the `ferron` programs from the download server.

use vstd::prelude::*;

use crate::text::{chars_of, text_between, trim, trimmed};

verus! {

// ---------------------------------------------------------------------------
// Where from

/// Where the archive of a version lies.
pub open spec fn archive_location(version: Seq<char>, target: Seq<char>, windows: bool) -> Seq<char> {
    "https://dl.ferron.sh/"@ + version + "/ferron-"@ + version + "-"@ + target + (if windows {
        ".zip"@
    } else {
        ".tar.gz"@
    })
}

/// An archive lies in the directory of its version, under a name with the version and
/// the target. Its ending tells a ZIP archive from a compressed tarball, and is all that
/// differs between systems.
pub proof fn archives_are_named_by_version_and_target(
    version: Seq<char>,
    target: Seq<char>,
    windows: bool,
)
    ensures
        ({
            let directory = "https://dl.ferron.sh/"@ + version + "/"@;
            let name = "ferron-"@ + version + "-"@ + target;
            &&& archive_location(version, target, true) == directory + name + ".zip"@
            &&& archive_location(version, target, false) == directory + name + ".tar.gz"@
            &&& directory.is_prefix_of(archive_location(version, target, windows))
        }),
{
    reveal_strlit("/");
    reveal_strlit("ferron-");
    reveal_strlit("/ferron-");
    assert("/ferron-"@ =~= "/"@ + "ferron-"@);
    let directory = "https://dl.ferron.sh/"@ + version + "/"@;
    let name = "ferron-"@ + version + "-"@ + target;
    assert(archive_location(version, target, true) =~= directory + name + ".zip"@);
    assert(archive_location(version, target, false) =~= directory + name + ".tar.gz"@);
    let location = archive_location(version, target, windows);
    assert(location.subrange(0, directory.len() as int) =~= directory);
}

/// Whether the programs need not be downloaded: `ferron`, or `ferron.exe` as Windows
/// has it, is in their directory. A directory without either, as a download that
/// failed leaves it, is not enough.
pub fn already_obtained(ferron_exists: bool, ferron_exe_exists: bool) -> (yes: bool)
    ensures
        yes == (ferron_exists || ferron_exe_exists),
{
    ferron_exists || ferron_exe_exists
}

/// The location of the newest archive, by what the server says is the newest version.
/// Windows gets a ZIP archive, and every other system a compressed tarball.
pub fn archive_url(latest: &str, target: &str, windows: bool) -> (url: String)
    ensures
        url@ == archive_location(trimmed(latest@), target@, windows),
{
    let version = trim(latest);
    let mut url = String::new();
    url.append("https://dl.ferron.sh/");
    url.append(version.as_str());
    url.append("/ferron-");
    url.append(version.as_str());
    url.append("-");
    url.append(target);
    if windows {
        url.append(".zip");
    } else {
        url.append(".tar.gz");
    }
    assert(url@ =~= archive_location(trimmed(latest@), target@, windows));
    url
}

// ---------------------------------------------------------------------------
// Permissions

/// The mode of a file that is executable for all who may read it.
pub open spec fn with_execution(mode: u32) -> u32 {
    mode | ((mode & 0o444) >> 2)
}

/// Makes a file executable for all who may read it.
pub fn executable_mode(mode: u32) -> (new_mode: u32)
    ensures
        new_mode == with_execution(mode),
{
    mode | ((mode & 0o444) >> 2u32)
}

/// Each of owner, group and others may execute the file exactly if they could
/// before, or may read it. Nothing else about the mode changes.
pub proof fn readers_may_execute(mode: u32)
    ensures
        with_execution(mode) & 0o100 != 0 <==> mode & 0o100 != 0 || mode & 0o400 != 0,
        with_execution(mode) & 0o010 != 0 <==> mode & 0o010 != 0 || mode & 0o040 != 0,
        with_execution(mode) & 0o001 != 0 <==> mode & 0o001 != 0 || mode & 0o004 != 0,
        with_execution(mode) & !0o111u32 == mode & !0o111u32,
{
    assert((mode | ((mode & 0o444) >> 2)) & 0o100 != 0 <==> mode & 0o100 != 0 || mode & 0o400 != 0)
        by (bit_vector);
    assert((mode | ((mode & 0o444) >> 2)) & 0o010 != 0 <==> mode & 0o010 != 0 || mode & 0o040 != 0)
        by (bit_vector);
    assert((mode | ((mode & 0o444) >> 2)) & 0o001 != 0 <==> mode & 0o001 != 0 || mode & 0o004 != 0)
        by (bit_vector);
    assert((mode | ((mode & 0o444) >> 2)) & !0o111u32 == mode & !0o111u32) by (bit_vector);
}

/// Making a file executable a second time changes nothing.
pub proof fn execution_is_granted_once(mode: u32)
    ensures
        with_execution(with_execution(mode)) == with_execution(mode),
{
    assert((mode | ((mode & 0o444) >> 2)) | (((mode | ((mode & 0o444) >> 2)) & 0o444) >> 2) == mode
        | ((mode & 0o444) >> 2)) by (bit_vector);
}

// ---------------------------------------------------------------------------
// Entries of ZIP archives

/// A name with everything taken out that a file name may not hold, on Windows or
/// elsewhere: the answer of `sanitize_filename::sanitize_with_options`.
pub uninterp spec fn sanitized(name: Seq<char>, windows: bool) -> Seq<char>;

/// Whether a name stands for a single step down from a directory: it holds no
/// separator and names no drive, and is neither the directory itself nor the one
/// above it.
pub open spec fn single_step(name: Seq<char>) -> bool {
    &&& forall|k: int|
        0 <= k < name.len() ==> #[trigger] name[k] != '/' && name[k] != '\\' && name[k] != ':'
    &&& name != seq!['.']
    &&& name != seq!['.', '.']
}

/// `sanitize_filename::sanitize_with_options`, with nothing in the place of what it
/// takes out and names cut to the usual length. The new name depends on the name and
/// on the system alone, and is called [`sanitized`]. It holds no `/`, no `\` and no
/// `:`, and is neither `.` nor `..`.
#[verifier::external_body]
fn sanitize(name: &str, windows: bool) -> (clean: String)
    ensures
        clean@ == sanitized(name@, windows),
        single_step(clean@),
{
    let options = sanitize_filename::Options { windows, ..sanitize_filename::Options::default() };
    sanitize_filename::sanitize_with_options(name, options)
}

/// Whether a character separates the steps of a path in an archive.
pub open spec fn path_separator(c: char) -> bool {
    c == '/' || c == '\\'
}

/// The number of characters before the first separator, or of all where there is
/// none.
pub open spec fn step_break(path: Seq<char>) -> nat
    decreases path.len(),
{
    if path.len() == 0 || path_separator(path[0]) {
        0
    } else {
        1 + step_break(path.skip(1))
    }
}

/// What stands between the separators of a path.
pub open spec fn path_steps(path: Seq<char>) -> Seq<Seq<char>>
    decreases path.len(),
{
    if step_break(path) >= path.len() {
        seq![path]
    } else {
        seq![path.take(step_break(path) as int)] + path_steps(
            path.skip(step_break(path) as int + 1),
        )
    }
}

proof fn lemma_step_break(path: Seq<char>, at: int)
    requires
        0 <= at <= path.len(),
        forall|k: int| 0 <= k < at ==> !path_separator(#[trigger] path[k]),
        at < path.len() ==> path_separator(path[at]),
    ensures
        step_break(path) == at,
    decreases path.len(),
{
    if at > 0 {
        assert(!path_separator(path[0]));
        assert forall|k: int| 0 <= k < at - 1 implies !path_separator(
            #[trigger] path.skip(1)[k],
        ) by {
            assert(path.skip(1)[k] == path[k + 1]);
        }
        lemma_step_break(path.skip(1), at - 1);
    }
}

/// A slash or a backslash ends a step of a path, and what follows it are further steps.
/// Without either, a path is a single step.
pub proof fn paths_are_split_at_separators(step: Seq<char>, rest: Seq<char>)
    requires
        !step.contains('/'),
        !step.contains('\\'),
    ensures
        path_steps(step) == seq![step],
        path_steps(step + seq!['/'] + rest) == seq![step] + path_steps(rest),
        path_steps(step + seq!['\\'] + rest) == seq![step] + path_steps(rest),
{
    let length = step.len() as int;
    assert forall|k: int| 0 <= k < length implies !path_separator(#[trigger] step[k]) by {
        assert(step.contains(step[k]));
    }
    lemma_step_break(step, length);
    let unix = step + seq!['/'] + rest;
    assert forall|k: int| 0 <= k < length implies !path_separator(#[trigger] unix[k]) by {
        assert(unix[k] == step[k]);
    }
    lemma_step_break(unix, length);
    assert(unix.take(length) =~= step);
    assert(unix.skip(length + 1) =~= rest);
    let windows = step + seq!['\\'] + rest;
    assert forall|k: int| 0 <= k < length implies !path_separator(#[trigger] windows[k]) by {
        assert(windows[k] == step[k]);
    }
    lemma_step_break(windows, length);
    assert(windows.take(length) =~= step);
    assert(windows.skip(length + 1) =~= rest);
}

/// The steps from the download directory down to where an entry of a ZIP archive is
/// put. No step leads out of the directory it is taken in.
pub fn entry_path(filename: &str) -> (steps: Vec<String>)
    ensures
        steps.deep_view() == path_steps(filename@).map_values(
            |step: Seq<char>| sanitized(step, true),
        ),
        forall|k: int| 0 <= k < steps@.len() ==> single_step((#[trigger] steps@[k])@),
        steps@.len() == path_steps(filename@).len(),
        forall|k: int|
            0 <= k < steps@.len() ==> (#[trigger] steps@[k])@ == sanitized(
                path_steps(filename@)[k],
                true,
            ),
{
    let chars = chars_of(filename);
    let ghost clean = |step: Seq<char>| sanitized(step, true);
    let ghost whole = path_steps(filename@).map_values(clean);
    let mut steps: Vec<String> = Vec::new();
    let mut start: usize = 0;
    let mut i: usize = 0;
    assert(chars@.skip(0) =~= filename@);
    assert(steps.deep_view() + path_steps(chars@.skip(0)).map_values(clean) =~= whole);
    while i < chars.len()
        invariant
            chars@ == filename@,
            clean == (|step: Seq<char>| sanitized(step, true)),
            start <= i <= chars@.len(),
            forall|k: int| start <= k < i ==> !path_separator(#[trigger] chars@[k]),
            steps.deep_view() + path_steps(chars@.skip(start as int)).map_values(clean) == whole,
            forall|k: int| 0 <= k < steps@.len() ==> single_step((#[trigger] steps@[k])@),
        decreases chars@.len() - i,
    {
        if chars[i] == '/' || chars[i] == '\\' {
            let step = text_between(&chars, start, i);
            let ghost before = steps.deep_view();
            let ghost rest = chars@.skip(start as int);
            let ghost after = chars@.skip(i + 1);
            proof {
                assert forall|k: int| 0 <= k < i - start implies !path_separator(
                    #[trigger] rest[k],
                ) by {
                    assert(rest[k] == chars@[start + k]);
                }
                lemma_step_break(rest, i - start);
                assert(rest.take(i - start) =~= step@);
                assert(rest.skip(i - start + 1) =~= after);
                assert(path_steps(rest) == seq![step@] + path_steps(after));
                assert(path_steps(rest).map_values(clean) =~= seq![clean(step@)] + path_steps(
                    after,
                ).map_values(clean));
            }
            steps.push(sanitize(step.as_str(), true));
            assert(steps.deep_view() =~= before.push(clean(step@)));
            assert(steps.deep_view() + path_steps(after).map_values(clean) =~= before + (seq![
                clean(step@),
            ] + path_steps(after).map_values(clean)));
            start = i + 1;
        }
        i += 1;
    }
    let step = text_between(&chars, start, chars.len());
    let ghost before = steps.deep_view();
    let ghost rest = chars@.skip(start as int);
    proof {
        assert forall|k: int| 0 <= k < rest.len() implies !path_separator(#[trigger] rest[k]) by {
            assert(rest[k] == chars@[start + k]);
        }
        lemma_step_break(rest, rest.len() as int);
        assert(step@ =~= rest);
        assert(path_steps(rest).map_values(clean) =~= seq![clean(step@)]);
    }
    steps.push(sanitize(step.as_str(), true));
    assert(steps.deep_view() =~= before + seq![clean(step@)]);
    assert forall|k: int| 0 <= k < steps@.len() implies (#[trigger] steps@[k])@ == sanitized(
        path_steps(filename@)[k],
        true,
    ) by {
        assert(steps.deep_view()[k] == clean(path_steps(filename@)[k]));
    }
    steps
}

/// What to do with an entry of a ZIP archive.
#[derive(Debug, Clone, Copy, PartialEq, Eq, Structural)]
pub enum EntryAction {
    /// The directory is there already.
    Nothing,
    /// Create the directory and those above it.
    CreateDirectory,
    /// Write the file, after its directory is created if need be.
    WriteFile { create_parent: bool },
    /// A file that would stand in no directory cannot be written.
    Fail,
}

/// What to do with an entry of a ZIP archive. Entries may come in any order, and an
/// archive need not have entries for its directories. `parent` says whether the place
/// above the entry is a directory, if there is such a place.
pub fn entry_action(is_directory: bool, exists: bool, parent: Option<bool>) -> (action: EntryAction)
    ensures
        is_directory && exists <==> action == EntryAction::Nothing,
        is_directory && !exists <==> action == EntryAction::CreateDirectory,
        !is_directory && parent is None <==> action == EntryAction::Fail,
        !is_directory ==> (parent matches Some(there) ==> action == (EntryAction::WriteFile {
            create_parent: !there,
        })),
{
    if is_directory {
        if exists {
            EntryAction::Nothing
        } else {
            EntryAction::CreateDirectory
        }
    } else {
        match parent {
            Some(there) => EntryAction::WriteFile { create_parent: !there },
            None => EntryAction::Fail,
        }
    }
}

} // verus!
