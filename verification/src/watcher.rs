//! The content watcher's decision: which library a changed file belongs
//! to, and whether the change calls for a reload at all. Watching the
//! file system and performing the reload are the caller's business.
use vstd::prelude::*;

verus! {

use crate::text::{chars_end_with, ends_with, starts_with, string_to_chars};

/// Whether a changed path is library content: a CSV or YAML file.
pub open spec fn is_content_file(p: Seq<char>) -> bool {
    ends_with(p, seq!['.', 'c', 's', 'v']) || ends_with(p, seq!['.', 'y', 'a', 'm', 'l'])
        || ends_with(p, seq!['.', 'y', 'm', 'l'])
}

/// One watched library: its watched directory, its token, and its
/// library path.
pub struct WatchEntry {
    /// The directory being watched.
    pub watch_path: String,
    /// The token whose library must reload.
    pub token: String,
    /// The library directory to reload from.
    pub library_path: String,
}

/// Decide whether a changed file calls for a reload: it must be a CSV or
/// YAML file under some watched directory, and the first such directory
/// names the token and library to reload. Anything else is ignored.
pub fn watch_reload_target<'a>(path: &String, entries: &'a Vec<WatchEntry>) -> (r: Option<
    &'a WatchEntry,
>)
    ensures
        r is Some <==> (is_content_file(path@) && exists|i: int|
            0 <= i < entries@.len() && starts_with(
                path@,
                (#[trigger] entries@[i]).watch_path@,
            )),
        r matches Some(e) ==> is_content_file(path@) && exists|i: int|
            0 <= i < entries@.len() && *e == #[trigger] entries@[i] && starts_with(
                path@,
                e.watch_path@,
            ),
{
    let pchars = string_to_chars(path);
    let csv_ext: Vec<char> = vec!['.', 'c', 's', 'v'];
    let yaml_ext: Vec<char> = vec!['.', 'y', 'a', 'm', 'l'];
    let yml_ext: Vec<char> = vec!['.', 'y', 'm', 'l'];
    proof {
        assert(csv_ext@ =~= seq!['.', 'c', 's', 'v']);
        assert(yaml_ext@ =~= seq!['.', 'y', 'a', 'm', 'l']);
        assert(yml_ext@ =~= seq!['.', 'y', 'm', 'l']);
    }
    let content = chars_end_with(&pchars, &csv_ext) || chars_end_with(&pchars, &yaml_ext)
        || chars_end_with(&pchars, &yml_ext);
    if !content {
        return None;
    }
    let mut i: usize = 0;
    while i < entries.len()
        invariant
            0 <= i <= entries@.len(),
            pchars@ == path@,
            is_content_file(path@),
            forall|j: int|
                0 <= j < i ==> !starts_with(path@, (#[trigger] entries@[j]).watch_path@),
        decreases entries@.len() - i,
    {
        let wchars = string_to_chars(&entries[i].watch_path);
        if crate::text::chars_start_with(&pchars, &wchars) {
            proof {
                assert(starts_with(path@, entries@[i as int].watch_path@));
            }
            return Some(&entries[i]);
        }
        i = i + 1;
    }
    None
}

} // verus!
