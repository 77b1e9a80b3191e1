//! The discovery engine's decisions: which libraries a scanned project
//! still needs registered, what the descriptor file must hold, when it
//! must be rewritten, what a lock-file change means, and how the active
//! set evolves. Scanning processes, watching directories and touching
//! disk are the caller's business.
use vstd::prelude::*;

verus! {

use crate::registry::{PersistedRegistry, ProjectEntry};
use crate::scanner::parent_of;
use crate::schema::opt_view;
use crate::text::{chars_end_with, dec_digits, ends_with, string_to_chars, u64_to_dec_string};
use vstd::string::StringExecFns;

/// The descriptor text the EDA tool reads: deterministic JSON naming the
/// endpoint and the bearer token.
pub open spec fn httplib_text(name: Seq<char>, description: Seq<char>, token: Seq<char>, port: nat) -> Seq<
    char,
> {
    ("{\n    \"meta\": {\n        \"version\": 1.0\n    },\n    \"name\": \"")@ + name
        + ("\",\n    \"description\": \"")@ + description
        + ("\",\n    \"source\": {\n        \"type\": \"REST_API\",\n        \"api_version\": \"v1\",\n        \"root_url\": \"http://127.0.0.1:")@
        + dec_digits(port) + ("\",\n        \"token\": \"")@ + token + ("\"\n    }\n}")@
}

/// Render the expected descriptor file contents for a library.
pub fn expected_httplib_content(name: &str, description: &str, token: &str, port: u16) -> (r:
    String)
    ensures
        r@ == httplib_text(name@, description@, token@, port as nat),
{
    let mut r = String::from_str(
        "{\n    \"meta\": {\n        \"version\": 1.0\n    },\n    \"name\": \"",
    );
    r.append(name);
    r.append("\",\n    \"description\": \"");
    r.append(description);
    r.append(
        "\",\n    \"source\": {\n        \"type\": \"REST_API\",\n        \"api_version\": \"v1\",\n        \"root_url\": \"http://127.0.0.1:",
    );
    let port_s = u64_to_dec_string(port as u64);
    r.append(port_s.as_str());
    r.append("\",\n        \"token\": \"");
    r.append(token);
    r.append("\"\n    }\n}");
    r
}

/// The fallback description for a library that states none.
pub open spec fn fallback_description(name: Seq<char>) -> Seq<char> {
    ("KiCodex HTTP Library for ")@ + name
}

/// The description to put in the descriptor: the stated one, or the
/// fallback naming the library.
pub fn resolve_description(name: &str, description: Option<&str>) -> (r: String)
    ensures
        description matches Some(d) ==> r@ == d@,
        description is None ==> r@ == fallback_description(name@),
{
    match description {
        Some(d) => String::from_str(d),
        None => {
            let mut r = String::from_str("KiCodex HTTP Library for ");
            r.append(name);
            r
        },
    }
}

/// Whether the descriptor file must be written: only when it is missing
/// or its bytes differ from the expected text. A correct file is never
/// rewritten.
pub fn descriptor_needs_write(existing: Option<&String>, expected: &String) -> (r: bool)
    ensures
        r == !(existing matches Some(e) && e@ == expected@),
{
    match existing {
        Some(e) => !(*e == *expected),
        None => true,
    }
}

/// Whether a library of this name is already registered for the project.
pub open spec fn registered_for(
    projects: Seq<ProjectEntry>,
    project_path: Seq<char>,
    lib_name: Seq<char>,
) -> bool {
    exists|i: int|
        0 <= i < projects.len() && opt_view((#[trigger] projects[i]).project_path) == Some(
            project_path,
        ) && projects[i].name@ == lib_name
}

/// Find the entry registering this library for this project, if any.
pub fn find_registered<'a>(
    persisted: &'a PersistedRegistry,
    project_path: &String,
    lib_name: &String,
) -> (r: Option<&'a ProjectEntry>)
    ensures
        r is Some <==> registered_for(persisted.projects@, project_path@, lib_name@),
        r matches Some(e) ==> exists|i: int|
            0 <= i < persisted.projects@.len() && *e == #[trigger] persisted.projects@[i]
                && opt_view(e.project_path) == Some(project_path@) && e.name@ == lib_name@,
{
    let mut i: usize = 0;
    while i < persisted.projects.len()
        invariant
            0 <= i <= persisted.projects@.len(),
            forall|j: int|
                0 <= j < i ==> !(opt_view((#[trigger] persisted.projects@[j]).project_path)
                    == Some(project_path@) && persisted.projects@[j].name@ == lib_name@),
        decreases persisted.projects@.len() - i,
    {
        let p = &persisted.projects[i];
        let matches_path = match &p.project_path {
            Option::Some(pp) => *pp == *project_path,
            Option::None => false,
        };
        if matches_path && p.name == *lib_name {
            return Some(p);
        }
        i = i + 1;
    }
    None
}

/// Registering a library puts it in the registry, so the next pass over
/// the same project finds it and registers nothing anew: auto-discovery
/// settles after one pass, and with the descriptor file already correct
/// it touches nothing on disk either.
pub proof fn lemma_auto_register_idempotent(
    before: Seq<ProjectEntry>,
    after: Seq<ProjectEntry>,
    entry: ProjectEntry,
    project_path: Seq<char>,
    lib_name: Seq<char>,
)
    requires
        opt_view(entry.project_path) == Some(project_path),
        entry.name@ == lib_name,
        after.len() >= 1,
        after.last() == entry,
    ensures
        registered_for(after, project_path, lib_name),
{
    assert(opt_view(after[after.len() - 1].project_path) == Some(project_path));
}

/// Why registering a discovered project failed. Discovery never aborts:
/// a failure here blocks only that library's registration.
#[derive(Debug)]
pub enum AutoRegisterError {
    /// The project manifest could not be used.
    Project(crate::project::ProjectError),
    /// A library failed to load.
    Server(crate::library::ServerError),
    /// An input/output failure.
    Io(String),
    /// The registry could not be saved.
    Registry(String),
}

/// A lock-file watcher event.
pub enum LockEvent {
    /// A lock file appeared: the project in this directory was opened.
    ProjectOpened(String),
    /// The last lock file vanished: the project in this directory closed.
    ProjectClosed(String),
}

/// Whether a path names a lock file.
pub open spec fn is_lck(p: Seq<char>) -> bool {
    ends_with(p, seq!['.', 'l', 'c', 'k'])
}

/// Decide what a debounced change to `path` means. A non-lock file means
/// nothing. A lock file that exists was created: the project opened. A
/// vanished lock file closes the project only when no other lock file
/// remains in the directory listing.
pub fn lock_event_for(path: &String, still_exists: bool, remaining: &Vec<String>) -> (r: Option<
    LockEvent,
>)
    ensures
        !is_lck(path@) ==> r is None,
        is_lck(path@) && still_exists ==> (r matches Some(e) && e matches LockEvent::ProjectOpened(
            d,
        ) && d@ == parent_of(path@)),
        is_lck(path@) && !still_exists && (exists|i: int|
            0 <= i < remaining@.len() && is_lck(#[trigger] remaining.deep_view()[i])) ==> r is None,
        is_lck(path@) && !still_exists && !(exists|i: int|
            0 <= i < remaining@.len() && is_lck(#[trigger] remaining.deep_view()[i])) ==> (
        r matches Some(e) && e matches LockEvent::ProjectClosed(d) && d@ == parent_of(path@)),
{
    let pchars = string_to_chars(path);
    let lck: Vec<char> = vec!['.', 'l', 'c', 'k'];
    proof {
        assert(lck@ =~= seq!['.', 'l', 'c', 'k']);
    }
    if !chars_end_with(&pchars, &lck) {
        return None;
    }
    let dir = crate::scanner::parent_dir(path);
    if still_exists {
        return Some(LockEvent::ProjectOpened(dir));
    }
    let mut i: usize = 0;
    while i < remaining.len()
        invariant
            0 <= i <= remaining@.len(),
            is_lck(path@),
            !still_exists,
            lck@ == seq!['.', 'l', 'c', 'k'],
            forall|j: int| 0 <= j < i ==> !is_lck(#[trigger] remaining.deep_view()[j]),
        decreases remaining@.len() - i,
    {
        let fchars = string_to_chars(&remaining[i]);
        proof {
            assert(remaining.deep_view()[i as int] == remaining@[i as int]@);
        }
        if chars_end_with(&fchars, &lck) {
            proof {
                assert(is_lck(remaining.deep_view()[i as int]));
            }
            return None;
        }
        i = i + 1;
    }
    Some(LockEvent::ProjectClosed(dir))
}

/// Whether two snapshots of the active set differ.
pub fn active_changed(old_set: &Vec<String>, new_set: &Vec<String>) -> (r: bool)
    ensures
        r == (old_set.deep_view() != new_set.deep_view()),
{
    if old_set.len() != new_set.len() {
        proof {
            assert(old_set.deep_view().len() != new_set.deep_view().len());
        }
        return true;
    }
    let mut i: usize = 0;
    while i < old_set.len()
        invariant
            0 <= i <= old_set@.len(),
            old_set@.len() == new_set@.len(),
            forall|j: int|
                0 <= j < i ==> #[trigger] old_set.deep_view()[j] == new_set.deep_view()[j],
        decreases old_set@.len() - i,
    {
        if !(old_set[i] == new_set[i]) {
            proof {
                assert(old_set.deep_view()[i as int] != new_set.deep_view()[i as int]);
            }
            return true;
        }
        proof {
            assert(old_set.deep_view()[i as int] == old_set@[i as int]@);
            assert(new_set.deep_view()[i as int] == new_set@[i as int]@);
        }
        i = i + 1;
    }
    proof {
        assert(old_set.deep_view() =~= new_set.deep_view());
    }
    false
}

/// A project opened: add its directory to the active set unless present.
pub fn on_project_opened(active: &mut Vec<String>, dir: String)
    ensures
        old(active).deep_view().contains(dir@) ==> final(active)@ == old(active)@,
        !old(active).deep_view().contains(dir@) ==> final(active).deep_view() == old(
            active,
        ).deep_view().push(dir@),
{
    if !crate::store::contains_string(active, &dir) {
        let ghost before = active.deep_view();
        active.push(dir);
        proof {
            assert(active.deep_view() =~~= before.push(active@[active@.len() - 1]@));
        }
    }
}

/// A project closed: drop its directory from the active set.
pub fn on_project_closed(active: &mut Vec<String>, dir: &String)
    ensures
        final(active).deep_view() == old(active).deep_view().filter(
            |d: Seq<char>| d != dir@,
        ),
{
    reveal(Seq::filter);
    let ghost pred = |d: Seq<char>| d != dir@;
    let mut kept: Vec<String> = Vec::new();
    let mut i: usize = 0;
    proof {
        assert(kept.deep_view() =~= old(active).deep_view().take(0).filter(pred));
    }
    while i < active.len()
        invariant
            0 <= i <= active@.len(),
            active@ == old(active)@,
            pred == (|d: Seq<char>| d != dir@),
            kept.deep_view() == old(active).deep_view().take(i as int).filter(pred),
        decreases active@.len() - i,
    {
        let keep = !(active[i] == *dir);
        proof {
            assert(old(active).deep_view()[i as int] == active@[i as int]@);
            assert(keep == pred(old(active).deep_view()[i as int]));
            reveal(Seq::filter);
            assert(old(active).deep_view().take(i + 1).drop_last() =~= old(
                active,
            ).deep_view().take(i as int));
            assert(old(active).deep_view().take(i + 1).last() == old(active).deep_view()[i as int]);
        }
        if keep {
            let ghost before = kept.deep_view();
            kept.push(active[i].clone());
            proof {
                assert(kept.deep_view() =~~= before.push(old(active).deep_view()[i as int]));
                assert(kept.deep_view() =~= old(active).deep_view().take(i + 1).filter(pred));
            }
        } else {
            proof {
                assert(kept.deep_view() =~= old(active).deep_view().take(i + 1).filter(pred));
            }
        }
        i = i + 1;
    }
    proof {
        assert(old(active).deep_view().take(old(active).deep_view().len() as int) =~= old(
            active,
        ).deep_view());
    }
    *active = kept;
}

} // verus!
