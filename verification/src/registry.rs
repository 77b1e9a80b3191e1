//! The persistent project registry — the durable list of
//! `(token, project, library, name)` tuples — and the runtime registry of
//! loaded libraries keyed by token. Serializing the persistent registry to
//! its JSON file is the caller's business.
use vstd::prelude::*;

verus! {

use crate::library::{LoadedLibrary, LoadedComponentType};
use crate::schema::opt_view;

/// One persisted project entry.
pub struct ProjectEntry {
    /// The bearer token addressing the library on the wire.
    pub token: String,
    /// The project directory, absent for a standalone library.
    pub project_path: Option<String>,
    /// The library directory.
    pub library_path: String,
    /// The display name.
    pub name: String,
    /// Free-form description.
    pub description: Option<String>,
}

/// An entry's view: every piece as a plain value.
pub open spec fn pe_view(e: ProjectEntry) -> (Seq<char>, Option<Seq<char>>, Seq<char>, Seq<char>, Option<
    Seq<char>,
>) {
    (e.token@, opt_view(e.project_path), e.library_path@, e.name@, opt_view(e.description))
}

impl ProjectEntry {
    /// A copy of the entry.
    pub fn clone_entry(&self) -> (r: ProjectEntry)
        ensures
            r == *self,
    {
        ProjectEntry {
            token: self.token.clone(),
            project_path: match &self.project_path {
                Some(p) => Some(p.clone()),
                None => None,
            },
            library_path: self.library_path.clone(),
            name: self.name.clone(),
            description: match &self.description {
                Some(d) => Some(d.clone()),
                None => None,
            },
        }
    }
}

/// Whether two entries claim the same place in the registry: standalone
/// entries collide on the library path alone, project-attached entries on
/// the `(project path, library path)` pair.
pub open spec fn collides(a: ProjectEntry, b: ProjectEntry) -> bool {
    if opt_view(a.project_path) is None && opt_view(b.project_path) is None {
        a.library_path@ == b.library_path@
    } else {
        opt_view(a.project_path) == opt_view(b.project_path) && a.library_path@ == b.library_path@
    }
}

/// No two entries of the sequence collide.
pub open spec fn entries_unique(s: Seq<ProjectEntry>) -> bool {
    forall|i: int, j: int| 0 <= i < j < s.len() ==> !collides(#[trigger] s[i], #[trigger] s[j])
}

/// The persistent registry: an ordered list of project entries.
pub struct PersistedRegistry {
    /// The entries, oldest first.
    pub projects: Vec<ProjectEntry>,
}

impl PersistedRegistry {
    /// An empty registry, as `load` yields for a missing file.
    pub fn new() -> (r: PersistedRegistry)
        ensures
            r.projects@.len() == 0,
    {
        PersistedRegistry { projects: Vec::new() }
    }

    /// Add or update an entry: every colliding prior entry is dropped,
    /// then the new entry is appended.
    pub fn upsert(&mut self, entry: ProjectEntry)
        ensures
            final(self).projects@.len() >= 1,
            final(self).projects@.last() == entry,
            final(self).projects@.drop_last() == old(self).projects@.filter(
                |p: ProjectEntry| !collides(p, entry),
            ),
            forall|i: int|
                0 <= i < final(self).projects@.len() - 1 ==> !collides(
                    #[trigger] final(self).projects@[i],
                    entry,
                ),
    {
        reveal(Seq::filter);
        let ghost pred = |p: ProjectEntry| !collides(p, entry);
        let mut kept: Vec<ProjectEntry> = Vec::new();
        let mut i: usize = 0;
        proof {
            assert(old(self).projects@.take(0).filter(pred) =~= Seq::<ProjectEntry>::empty());
            assert(kept@ =~= old(self).projects@.take(0).filter(pred));
        }
        while i < self.projects.len()
            invariant
                0 <= i <= self.projects@.len(),
                self.projects@ == old(self).projects@,
                pred == (|p: ProjectEntry| !collides(p, entry)),
                kept@ == old(self).projects@.take(i as int).filter(pred),
                forall|j: int| 0 <= j < kept@.len() ==> !collides(#[trigger] kept@[j], entry),
            decreases self.projects@.len() - i,
        {
            let p = &self.projects[i];
            let keep = match (&p.project_path, &entry.project_path) {
                (Option::None, Option::None) => !(p.library_path == entry.library_path),
                (Option::Some(a), Option::Some(b)) => !(*a == *b && p.library_path
                    == entry.library_path),
                _ => true,
            };
            proof {
                assert(keep == pred(self.projects@[i as int]));
                reveal(Seq::filter);
                assert(self.projects@.take(i + 1).drop_last() =~= self.projects@.take(i as int));
                assert(self.projects@.take(i + 1).last() == self.projects@[i as int]);
            }
            if keep {
                kept.push(self.projects[i].clone_entry());
                proof {
                    let c = kept@[kept@.len() - 1];
                    assert(c == self.projects@[i as int]);
                    assert(!collides(c, entry));
                    assert(kept@ =~= old(self).projects@.take(i as int).filter(pred).push(c));
                    assert(kept@ =~= old(self).projects@.take(i + 1).filter(pred));
                }
            } else {
                proof {
                    assert(kept@ =~= old(self).projects@.take(i + 1).filter(pred));
                }
            }
            i = i + 1;
        }
        proof {
            assert(old(self).projects@.take(old(self).projects@.len() as int)
                =~= old(self).projects@);
        }
        kept.push(entry);
        self.projects = kept;
        proof {
            assert(final(self).projects@.drop_last() =~= old(self).projects@.filter(pred));
        }
    }

    /// Remove every entry attached to the given project path.
    pub fn remove_by_path(&mut self, project_path: &str)
        ensures
            final(self).projects@ == old(self).projects@.filter(
                |p: ProjectEntry| opt_view(p.project_path) != Some(project_path@),
            ),
    {
        reveal(Seq::filter);
        let ghost pred = |p: ProjectEntry| opt_view(p.project_path) != Some(project_path@);
        let target = String::from_str(project_path);
        let mut kept: Vec<ProjectEntry> = Vec::new();
        let mut i: usize = 0;
        proof {
            assert(kept@ =~= old(self).projects@.take(0).filter(pred));
        }
        while i < self.projects.len()
            invariant
                0 <= i <= self.projects@.len(),
                self.projects@ == old(self).projects@,
                target@ == project_path@,
                pred == (|p: ProjectEntry| opt_view(p.project_path) != Some(project_path@)),
                kept@ == old(self).projects@.take(i as int).filter(pred),
            decreases self.projects@.len() - i,
        {
            let p = &self.projects[i];
            let keep = match &p.project_path {
                Option::Some(a) => !(*a == target),
                Option::None => true,
            };
            proof {
                assert(keep == pred(self.projects@[i as int]));
                reveal(Seq::filter);
                assert(self.projects@.take(i + 1).drop_last() =~= self.projects@.take(i as int));
                assert(self.projects@.take(i + 1).last() == self.projects@[i as int]);
            }
            if keep {
                kept.push(self.projects[i].clone_entry());
                proof {
                    let c = kept@[kept@.len() - 1];
                    assert(c == self.projects@[i as int]);
                    assert(kept@ =~= old(self).projects@.take(i as int).filter(pred).push(c));
                    assert(kept@ =~= old(self).projects@.take(i + 1).filter(pred));
                }
            } else {
                proof {
                    assert(kept@ =~= old(self).projects@.take(i + 1).filter(pred));
                }
            }
            i = i + 1;
        }
        proof {
            assert(old(self).projects@.take(old(self).projects@.len() as int)
                =~= old(self).projects@);
        }
        self.projects = kept;
    }

    /// Remove a standalone entry by its library path; project-attached
    /// entries are kept.
    pub fn remove_by_library_path(&mut self, library_path: &str)
        ensures
            final(self).projects@ == old(self).projects@.filter(
                |p: ProjectEntry|
                    !(opt_view(p.project_path) is None && p.library_path@ == library_path@),
            ),
    {
        reveal(Seq::filter);
        let ghost pred = |p: ProjectEntry|
            !(opt_view(p.project_path) is None && p.library_path@ == library_path@);
        let target = String::from_str(library_path);
        let mut kept: Vec<ProjectEntry> = Vec::new();
        let mut i: usize = 0;
        proof {
            assert(kept@ =~= old(self).projects@.take(0).filter(pred));
        }
        while i < self.projects.len()
            invariant
                0 <= i <= self.projects@.len(),
                self.projects@ == old(self).projects@,
                target@ == library_path@,
                pred == (|p: ProjectEntry|
                    !(opt_view(p.project_path) is None && p.library_path@ == library_path@)),
                kept@ == old(self).projects@.take(i as int).filter(pred),
            decreases self.projects@.len() - i,
        {
            let p = &self.projects[i];
            let keep = match &p.project_path {
                Option::None => !(p.library_path == target),
                Option::Some(_) => true,
            };
            proof {
                assert(keep == pred(self.projects@[i as int]));
                reveal(Seq::filter);
                assert(self.projects@.take(i + 1).drop_last() =~= self.projects@.take(i as int));
                assert(self.projects@.take(i + 1).last() == self.projects@[i as int]);
            }
            if keep {
                kept.push(self.projects[i].clone_entry());
                proof {
                    let c = kept@[kept@.len() - 1];
                    assert(c == self.projects@[i as int]);
                    assert(kept@ =~= old(self).projects@.take(i as int).filter(pred).push(c));
                    assert(kept@ =~= old(self).projects@.take(i + 1).filter(pred));
                }
            } else {
                proof {
                    assert(kept@ =~= old(self).projects@.take(i + 1).filter(pred));
                }
            }
            i = i + 1;
        }
        proof {
            assert(old(self).projects@.take(old(self).projects@.len() as int)
                =~= old(self).projects@);
        }
        self.projects = kept;
    }

    /// The first entry carrying the given token, if any.
    pub fn find_by_token(&self, token: &str) -> (r: Option<&ProjectEntry>)
        ensures
            r is Some <==> exists|i: int|
                0 <= i < self.projects@.len() && (#[trigger] self.projects@[i]).token@ == token@,
            r matches Some(e) ==> exists|i: int|
                0 <= i < self.projects@.len() && *e == #[trigger] self.projects@[i] && e.token@
                    == token@ && (forall|j: int|
                    0 <= j < i ==> self.projects@[j].token@ != token@),
    {
        let target = String::from_str(token);
        let mut i: usize = 0;
        while i < self.projects.len()
            invariant
                0 <= i <= self.projects@.len(),
                target@ == token@,
                forall|j: int| 0 <= j < i ==> (#[trigger] self.projects@[j]).token@ != token@,
            decreases self.projects@.len() - i,
        {
            if self.projects[i].token == target {
                return Some(&self.projects[i]);
            }
            i = i + 1;
        }
        None
    }
}

/// Upserting into a registry whose entries collide pairwise with nothing
/// keeps that invariant: every `(project path, library path)` pair — or,
/// for standalone entries, every library path — stays unique.
pub proof fn lemma_upsert_preserves_uniqueness(
    before: Seq<ProjectEntry>,
    after: Seq<ProjectEntry>,
    entry: ProjectEntry,
)
    requires
        entries_unique(before),
        after.len() >= 1,
        after.last() == entry,
        after.drop_last() == before.filter(|p: ProjectEntry| !collides(p, entry)),
        forall|i: int| 0 <= i < after.len() - 1 ==> !collides(#[trigger] after[i], entry),
    ensures
        entries_unique(after),
{
    let kept = before.filter(|p: ProjectEntry| !collides(p, entry));
    assert forall|i: int, j: int| 0 <= i < j < after.len() implies !collides(
        #[trigger] after[i],
        #[trigger] after[j],
    ) by {
        if j < after.len() - 1 {
            assert(after[i] == kept[i] && after[j] == kept[j]);
            lemma_filter_is_subsequence(before, |p: ProjectEntry| !collides(p, entry), i, j);
        } else {
            assert(after[j] == entry);
        }
    }
}

/// Two positions of a filtered sequence come from two distinct positions
/// of the original, in order.
proof fn lemma_filter_is_subsequence(
    s: Seq<ProjectEntry>,
    pred: spec_fn(ProjectEntry) -> bool,
    i: int,
    j: int,
)
    requires
        0 <= i < j < s.filter(pred).len(),
        entries_unique(s),
    ensures
        !collides(s.filter(pred)[i], s.filter(pred)[j]),
    decreases s.len(),
{
    reveal(Seq::filter);
    if s.len() > 0 {
        let rest = s.drop_last();
        if pred(s.last()) {
            if j == s.filter(pred).len() - 1 {
                assert(s.filter(pred)[j] == s.last());
                assert(s.filter(pred)[i] == rest.filter(pred)[i]);
                lemma_filter_member(rest, pred, i);
                let w = choose|w: int|
                    0 <= w < rest.len() && #[trigger] rest[w] == rest.filter(pred)[i];
                assert(s[w] == rest[w]);
                assert(!collides(s[w], s[s.len() - 1]));
            } else {
                assert(entries_unique(rest)) by {
                    assert(forall|a: int, b: int|
                        0 <= a < b < rest.len() ==> rest[a] == s[a] && rest[b] == s[b]);
                }
                lemma_filter_is_subsequence(rest, pred, i, j);
                assert(s.filter(pred)[i] == rest.filter(pred)[i]);
                assert(s.filter(pred)[j] == rest.filter(pred)[j]);
            }
        } else {
            assert(entries_unique(rest)) by {
                assert(forall|a: int, b: int|
                    0 <= a < b < rest.len() ==> rest[a] == s[a] && rest[b] == s[b]);
            }
            lemma_filter_is_subsequence(rest, pred, i, j);
        }
    }
}

/// Every member of a filtered sequence is a member of the original.
proof fn lemma_filter_member(s: Seq<ProjectEntry>, pred: spec_fn(ProjectEntry) -> bool, i: int)
    requires
        0 <= i < s.filter(pred).len(),
    ensures
        exists|w: int| 0 <= w < s.len() && #[trigger] s[w] == s.filter(pred)[i],
    decreases s.len(),
{
    reveal(Seq::filter);
    if s.len() > 0 {
        let rest = s.drop_last();
        if pred(s.last()) && i == s.filter(pred).len() - 1 {
            assert(s[s.len() - 1] == s.filter(pred)[i]);
        } else {
            lemma_filter_member(rest, pred, i);
            let w = choose|w: int|
                0 <= w < rest.len() && #[trigger] rest[w] == rest.filter(pred)[i];
            assert(s[w] == rest.filter(pred)[i]);
        }
    }
}

/// The runtime registry: loaded libraries keyed by token. Concurrency —
/// sharing this map between request handlers and the watchers — is the
/// caller's business; the operations themselves are plain.
pub struct ProjectRegistry {
    tokens: Vec<String>,
    libraries: Vec<LoadedLibrary>,
}

impl ProjectRegistry {
    /// The tokens, in insertion order.
    pub closed spec fn token_seq(self) -> Seq<Seq<char>> {
        self.tokens.deep_view()
    }

    /// The library stored at position `i`.
    pub closed spec fn library_at(self, i: int) -> LoadedLibrary {
        self.libraries@[i]
    }

    /// How many libraries are stored.
    pub closed spec fn lib_count(self) -> nat {
        self.libraries@.len()
    }

    /// As many libraries as tokens, and no token twice.
    pub open spec fn wf(self) -> bool {
        &&& self.token_seq().len() == self.lib_count()
        &&& crate::store::distinct_seqs(self.token_seq())
    }

    /// Whether a token is registered.
    pub open spec fn has_token(self, t: Seq<char>) -> bool {
        crate::rowmap::find_key(self.token_seq(), t) >= 0
    }

    /// An empty runtime registry.
    pub fn new() -> (r: ProjectRegistry)
        ensures
            r.wf(),
            r.token_seq().len() == 0,
    {
        let r = ProjectRegistry { tokens: Vec::new(), libraries: Vec::new() };
        proof {
            assert(r.token_seq() =~= Seq::<Seq<char>>::empty());
        }
        r
    }

    /// How many libraries are registered.
    pub fn len(&self) -> (n: usize)
        ensures
            n == self.token_seq().len(),
    {
        self.tokens.len()
    }

    /// The position of a token, if registered.
    fn index_of_token(&self, t: &String) -> (r: Option<usize>)
        ensures
            r is Some <==> self.has_token(t@),
            r matches Some(i) ==> i == crate::rowmap::find_key(self.token_seq(), t@),
    {
        let mut i: usize = 0;
        while i < self.tokens.len()
            invariant
                0 <= i <= self.token_seq().len(),
                self.token_seq().len() == self.tokens@.len(),
                forall|j: int| 0 <= j < i ==> self.token_seq()[j] != t@,
            decreases self.tokens@.len() - i,
        {
            if self.tokens[i] == *t {
                proof {
                    assert(self.token_seq()[i as int] == t@);
                    crate::rowmap::lemma_find_key(self.token_seq(), t@);
                }
                return Some(i);
            }
            proof {
                assert(self.token_seq()[i as int] == self.tokens@[i as int]@);
            }
            i = i + 1;
        }
        proof {
            crate::rowmap::lemma_find_key(self.token_seq(), t@);
        }
        None
    }

    /// Insert or replace the library under the given token.
    pub fn insert(&mut self, token: &str, library: LoadedLibrary)
        requires
            old(self).wf(),
        ensures
            final(self).wf(),
            final(self).has_token(token@),
            old(self).has_token(token@) ==> final(self).token_seq() == old(self).token_seq(),
            !old(self).has_token(token@) ==> final(self).token_seq() == old(self).token_seq().push(
                token@,
            ),
            final(self).library_at(
                crate::rowmap::find_key(final(self).token_seq(), token@),
            ) == library,
    {
        let t = String::from_str(token);
        match self.index_of_token(&t) {
            Some(i) => {
                proof {
                    crate::rowmap::lemma_find_key(self.token_seq(), t@);
                }
                self.libraries.set(i, library);
                proof {
                    assert(self.token_seq() =~~= old(self).token_seq());
                }
            },
            None => {
                proof {
                    crate::rowmap::lemma_find_key(self.token_seq(), t@);
                }
                self.tokens.push(t);
                self.libraries.push(library);
                proof {
                    assert(self.token_seq() =~~= old(self).token_seq().push(token@));
                    crate::store::lemma_find_key_push(old(self).token_seq(), token@, token@);
                    assert forall|a: int, b: int|
                        0 <= a < b < self.token_seq().len() implies self.token_seq()[a]
                        != self.token_seq()[b] by {
                        if b == self.token_seq().len() - 1 {
                            assert(old(self).token_seq()[a] != token@);
                        }
                    }
                }
            },
        }
    }

    /// The library under the given token, if any.
    pub fn get(&self, token: &str) -> (r: Option<&LoadedLibrary>)
        requires
            self.wf(),
        ensures
            r is Some <==> self.has_token(token@),
            r matches Some(lib) ==> *lib == self.library_at(
                crate::rowmap::find_key(self.token_seq(), token@),
            ),
    {
        let t = String::from_str(token);
        let mut i: usize = 0;
        while i < self.tokens.len()
            invariant
                0 <= i <= self.token_seq().len(),
                self.wf(),
                self.token_seq().len() == self.tokens@.len(),
                t@ == token@,
                forall|j: int| 0 <= j < i ==> self.token_seq()[j] != t@,
            decreases self.tokens@.len() - i,
        {
            if self.tokens[i] == t {
                proof {
                    assert(self.token_seq()[i as int] == t@);
                    crate::store::lemma_find_key_distinct(self.token_seq(), i as int);
                }
                return Some(&self.libraries[i]);
            }
            proof {
                assert(self.token_seq()[i as int] == self.tokens@[i as int]@);
            }
            i = i + 1;
        }
        proof {
            crate::rowmap::lemma_find_key(self.token_seq(), token@);
        }
        None
    }

    /// Replace the library under the given token with a freshly loaded
    /// one; an unknown token registers it.
    pub fn reload(&mut self, token: &str, library: LoadedLibrary)
        requires
            old(self).wf(),
        ensures
            final(self).wf(),
            final(self).has_token(token@),
            final(self).library_at(
                crate::rowmap::find_key(final(self).token_seq(), token@),
            ) == library,
    {
        self.insert(token, library);
    }

    /// Drop the library under the given token.
    pub fn remove(&mut self, token: &str)
        requires
            old(self).wf(),
        ensures
            final(self).wf(),
            !final(self).has_token(token@),
    {
        let t = String::from_str(token);
        match self.index_of_token(&t) {
            Some(i) => {
                proof {
                    crate::rowmap::lemma_find_key(self.token_seq(), t@);
                }
                self.tokens.remove(i);
                self.libraries.remove(i);
                proof {
                    assert(self.token_seq() =~~= old(self).token_seq().remove(i as int));
                    assert forall|j: int|
                        0 <= j < self.token_seq().len() implies self.token_seq()[j] != t@ by {
                        if j < i {
                            assert(self.token_seq()[j] == old(self).token_seq()[j]);
                        } else {
                            assert(self.token_seq()[j] == old(self).token_seq()[j + 1]);
                        }
                    }
                    crate::rowmap::lemma_find_key(self.token_seq(), t@);
                    if self.has_token(t@) {
                        assert(false);
                    }
                    assert forall|a: int, b: int|
                        0 <= a < b < self.token_seq().len() implies self.token_seq()[a]
                        != self.token_seq()[b] by {
                        let a0: int = if a < i { a } else { a + 1 };
                        let b0: int = if b < i { b } else { b + 1 };
                        assert(self.token_seq()[a] == old(self).token_seq()[a0]);
                        assert(self.token_seq()[b] == old(self).token_seq()[b0]);
                    }
                }
            },
            None => {},
        }
    }

    /// A snapshot of the registered tokens.
    pub fn all_tokens(&self) -> (r: Vec<String>)
        requires
            self.wf(),
        ensures
            r.deep_view() == self.token_seq(),
    {
        let mut r: Vec<String> = Vec::new();
        let mut i: usize = 0;
        while i < self.tokens.len()
            invariant
                0 <= i <= self.token_seq().len(),
                self.token_seq().len() == self.tokens@.len(),
                r.deep_view() =~= self.token_seq().take(i as int),
            decreases self.tokens@.len() - i,
        {
            let ghost before = r.deep_view();
            r.push(self.tokens[i].clone());
            proof {
                assert(r.deep_view() =~~= before.push(self.tokens@[i as int]@));
                assert(r.deep_view() =~= self.token_seq().take(i + 1));
            }
            i = i + 1;
        }
        proof {
            assert(r.deep_view() =~= self.token_seq());
        }
        r
    }
}

} // verus!
