//! Schemas: ordered field descriptors with single-parent inheritance.
//! Parsing the YAML files is the caller's business; resolution — merging a
//! parent's fields ahead of the child's and settling the three exclusion
//! booleans — is done and specified here.
use vstd::prelude::*;

verus! {

use crate::rowmap::{find_key, lemma_find_key};
use crate::store::{lemma_find_key_push, distinct_seqs};

/// What can go wrong loading a schema.
#[derive(Debug)]
pub enum SchemaError {
    /// A schema file that did not parse; the payload is the parser's message.
    Yaml(String),
    /// The directory-level default schema was asked for but has no file.
    MissingBase(String),
    /// A named or inherited schema that has no file.
    MissingParent(String),
    /// An inheritance chain that revisits a schema.
    Cycle(String),
}

/// One CSV column's description.
pub struct FieldDef {
    /// The name shown to the EDA tool.
    pub display_name: String,
    /// Whether rows must fill the column.
    pub required: bool,
    /// Whether the tool should show the value on the schematic.
    pub visible: bool,
    /// Free-form description.
    pub description: Option<String>,
    /// `kicad_symbol`, `kicad_footprint` or `url`, when set.
    pub field_type: Option<String>,
}

/// The view of an optional string.
pub open spec fn opt_view(o: Option<String>) -> Option<Seq<char>> {
    match o {
        Some(s) => Some(s@),
        None => None,
    }
}

/// A field descriptor's view: every piece as a plain value.
pub open spec fn fd_view(f: FieldDef) -> (Seq<char>, bool, bool, Option<Seq<char>>, Option<
    Seq<char>,
>) {
    (f.display_name@, f.required, f.visible, opt_view(f.description), opt_view(f.field_type))
}

impl FieldDef {
    /// A copy of the descriptor.
    pub fn clone_def(&self) -> (r: FieldDef)
        ensures
            fd_view(r) == fd_view(*self),
    {
        FieldDef {
            display_name: self.display_name.clone(),
            required: self.required,
            visible: self.visible,
            description: match &self.description {
                Some(d) => Some(d.clone()),
                None => None,
            },
            field_type: match &self.field_type {
                Some(t) => Some(t.clone()),
                None => None,
            },
        }
    }
}

/// An ordered mapping from field keys to their descriptors; insertion
/// keeps an existing key's position and appends fresh keys.
pub struct FieldMap {
    keys: Vec<String>,
    vals: Vec<FieldDef>,
}

impl FieldMap {
    /// The field keys, in order.
    pub closed spec fn key_seq(self) -> Seq<Seq<char>> {
        self.keys.deep_view()
    }

    /// The descriptor views, in key order.
    pub closed spec fn val_seq(self) -> Seq<(Seq<char>, bool, bool, Option<Seq<char>>, Option<
        Seq<char>,
    >)> {
        Seq::new(self.vals@.len() as nat, |i: int| fd_view(self.vals@[i]))
    }

    /// As many descriptors as keys, and no key twice.
    pub open spec fn wf(self) -> bool {
        &&& self.key_seq().len() == self.val_seq().len()
        &&& distinct_seqs(self.key_seq())
    }

    /// Whether the map has field `k`.
    pub open spec fn has_key(self, k: Seq<char>) -> bool {
        find_key(self.key_seq(), k) >= 0
    }

    /// The descriptor view under field `k`.
    pub open spec fn spec_get(self, k: Seq<char>) -> (Seq<char>, bool, bool, Option<Seq<char>>, Option<
        Seq<char>,
    >) {
        self.val_seq()[find_key(self.key_seq(), k)]
    }

    /// An empty map.
    pub fn new() -> (r: FieldMap)
        ensures
            r.wf(),
            r.key_seq() =~= Seq::<Seq<char>>::empty(),
            r.val_seq() =~= Seq::<(Seq<char>, bool, bool, Option<Seq<char>>, Option<Seq<char>>)>::empty(),
    {
        let r = FieldMap { keys: Vec::new(), vals: Vec::new() };
        proof {
            assert(r.key_seq() =~= Seq::<Seq<char>>::empty());
            assert(r.val_seq() =~= Seq::<(Seq<char>, bool, bool, Option<Seq<char>>, Option<
                Seq<char>,
            >)>::empty());
        }
        r
    }

    /// Number of fields.
    pub fn len(&self) -> (n: usize)
        ensures
            n == self.key_seq().len(),
    {
        self.keys.len()
    }

    /// The key at position `i`.
    pub fn key_at(&self, i: usize) -> (k: &String)
        requires
            i < self.key_seq().len(),
        ensures
            k@ == self.key_seq()[i as int],
    {
        &self.keys[i]
    }

    /// The descriptor at position `i`.
    pub fn val_at(&self, i: usize) -> (v: &FieldDef)
        requires
            self.wf(),
            i < self.key_seq().len(),
        ensures
            fd_view(*v) == self.val_seq()[i as int],
    {
        &self.vals[i]
    }

    /// The first position of key `k`, if any.
    pub fn find(&self, k: &String) -> (r: Option<usize>)
        ensures
            r is Some <==> self.has_key(k@),
            r is Some ==> r->Some_0 == find_key(self.key_seq(), k@),
    {
        let mut i: usize = 0;
        while i < self.keys.len()
            invariant
                0 <= i <= self.key_seq().len(),
                self.key_seq().len() == self.keys@.len(),
                forall|j: int| 0 <= j < i ==> self.key_seq()[j] != k@,
            decreases self.keys@.len() - i,
        {
            if self.keys[i] == *k {
                proof {
                    assert(self.key_seq()[i as int] == k@);
                    lemma_find_key(self.key_seq(), k@);
                }
                return Some(i);
            }
            proof {
                assert(self.key_seq()[i as int] == self.keys@[i as int]@);
            }
            i = i + 1;
        }
        proof {
            lemma_find_key(self.key_seq(), k@);
        }
        None
    }

    /// The descriptor under key `k`, if any.
    pub fn get(&self, k: &String) -> (r: Option<&FieldDef>)
        requires
            self.wf(),
        ensures
            r is Some <==> self.has_key(k@),
            r is Some ==> fd_view(*r->Some_0) == self.spec_get(k@),
    {
        proof {
            lemma_find_key(self.key_seq(), k@);
        }
        match self.find(k) {
            Some(i) => Some(&self.vals[i]),
            None => None,
        }
    }

    /// Insert a descriptor: an existing key keeps its position and takes
    /// the new descriptor; a fresh key is appended.
    pub fn insert(&mut self, k: String, v: FieldDef)
        requires
            old(self).wf(),
        ensures
            final(self).wf(),
            old(self).has_key(k@) ==> {
                &&& final(self).key_seq() == old(self).key_seq()
                &&& final(self).val_seq() == old(self).val_seq().update(
                    find_key(old(self).key_seq(), k@),
                    fd_view(v),
                )
            },
            !old(self).has_key(k@) ==> {
                &&& final(self).key_seq() == old(self).key_seq().push(k@)
                &&& final(self).val_seq() == old(self).val_seq().push(fd_view(v))
            },
    {
        proof {
            lemma_find_key(self.key_seq(), k@);
        }
        let ghost vv = fd_view(v);
        match self.find(&k) {
            Some(i) => {
                self.vals.set(i, v);
                proof {
                    assert(self.key_seq() =~~= old(self).key_seq());
                    assert(self.val_seq() =~~= old(self).val_seq().update(
                        find_key(old(self).key_seq(), k@),
                        vv,
                    ));
                }
            },
            None => {
                self.keys.push(k);
                self.vals.push(v);
                proof {
                    let kk = self.keys@[self.keys@.len() - 1]@;
                    assert(self.key_seq() =~~= old(self).key_seq().push(kk));
                    assert(self.val_seq() =~~= old(self).val_seq().push(vv));
                    lemma_find_key_push_all(old(self).key_seq(), kk);
                }
            },
        }
    }

    /// Remove and return the first field.
    pub fn take_first(&mut self) -> (r: (String, FieldDef))
        requires
            old(self).wf(),
            old(self).key_seq().len() > 0,
        ensures
            final(self).wf(),
            r.0@ == old(self).key_seq()[0],
            fd_view(r.1) == old(self).val_seq()[0],
            final(self).key_seq() == old(self).key_seq().drop_first(),
            final(self).val_seq() == old(self).val_seq().drop_first(),
    {
        let k = self.keys.remove(0);
        let v = self.vals.remove(0);
        proof {
            assert(self.key_seq() =~~= old(self).key_seq().drop_first());
            assert(self.val_seq() =~~= old(self).val_seq().drop_first());
        }
        (k, v)
    }
}

/// Appending a fresh key keeps every other key's place and absence.
proof fn lemma_find_key_push_all(keys: Seq<Seq<char>>, x: Seq<char>)
    ensures
        distinct_seqs(keys) && !keys.contains(x) ==> distinct_seqs(keys.push(x)),
{
    if distinct_seqs(keys) && !keys.contains(x) {
        assert forall|a: int, b: int| 0 <= a < b < keys.push(x).len() implies keys.push(x)[a]
            != keys.push(x)[b] by {
            if b == keys.len() {
                assert(keys.contains(keys[a]));
            }
        }
    }
}

/// What merging a child's fields over a parent's produces: the parent's
/// keys first in their own positions, then the child's fresh keys in
/// order; a key the child sets carries the child's descriptor, everything
/// else the parent's.
pub open spec fn merge_post(parent: FieldMap, child: FieldMap, r: FieldMap) -> bool {
    &&& r.wf()
    &&& r.key_seq() == parent.key_seq() + child.key_seq().filter(
        |k: Seq<char>| !parent.has_key(k),
    )
    &&& forall|k: Seq<char>| #[trigger] r.has_key(k) <==> parent.has_key(k) || child.has_key(k)
    &&& forall|k: Seq<char>|
        #[trigger] child.has_key(k) ==> r.spec_get(k) == child.spec_get(k)
    &&& forall|k: Seq<char>|
        !child.has_key(k) && #[trigger] parent.has_key(k) ==> r.spec_get(k) == parent.spec_get(k)
    &&& forall|k: Seq<char>|
        #[trigger] parent.has_key(k) ==> find_key(r.key_seq(), k) == find_key(
            parent.key_seq(),
            k,
        )
}

/// Merge a child schema's fields over its parent's: parent fields keep
/// their positions, a key the child repeats takes the child's descriptor
/// in place, and the child's fresh keys are appended in order.
pub fn merge_fields(parent: FieldMap, child: FieldMap) -> (r: FieldMap)
    requires
        parent.wf(),
        child.wf(),
    ensures
        merge_post(parent, child, r),
{
    let ghost p = parent;
    let ghost c = child;
    let mut r = parent;
    let mut rest = child;
    let ghost pred = |k: Seq<char>| !p.has_key(k);
    proof {
        assert(c.key_seq().take(0).filter(pred) =~= Seq::<Seq<char>>::empty());
        assert(r.key_seq() =~= p.key_seq() + c.key_seq().take(0).filter(pred));
        broadcast use vstd::seq_lib::group_seq_properties;
    }
    let ghost total = c.key_seq().len();
    let ghost mut t: int = 0;
    while rest.len() > 0
        invariant
            0 <= t <= total,
            total == c.key_seq().len(),
            p.wf(),
            c.wf(),
            rest.wf(),
            rest.key_seq() == c.key_seq().skip(t),
            rest.val_seq() == c.val_seq().skip(t),
            r.wf(),
            r.key_seq() == p.key_seq() + c.key_seq().take(t).filter(pred),
            pred == (|k: Seq<char>| !p.has_key(k)),
            forall|k: Seq<char>|
                #[trigger] r.has_key(k) <==> p.has_key(k) || c.key_seq().take(t).contains(k),
            forall|k: Seq<char>|
                c.key_seq().take(t).contains(k) ==> #[trigger] r.spec_get(k) == c.spec_get(k),
            forall|k: Seq<char>|
                !c.key_seq().take(t).contains(k) && #[trigger] p.has_key(k) ==> r.spec_get(k)
                    == p.spec_get(k),
            forall|k: Seq<char>|
                #[trigger] p.has_key(k) ==> find_key(r.key_seq(), k) == find_key(p.key_seq(), k),
        decreases rest.key_seq().len(),
    {
        let ghost rr = r;
        let (k, v) = rest.take_first();
        proof {
            assert(k@ == c.key_seq()[t]);
            assert(fd_view(v) == c.val_seq()[t]);
            assert(rest.key_seq() =~= c.key_seq().skip(t + 1));
            assert(rest.val_seq() =~= c.val_seq().skip(t + 1));
            crate::store::lemma_find_key_distinct(c.key_seq(), t);
            assert(c.has_key(k@)) by {
                lemma_find_key(c.key_seq(), k@);
            }
            assert(c.spec_get(k@) == c.val_seq()[t]);
            assert(!c.key_seq().take(t).contains(k@)) by {
                if c.key_seq().take(t).contains(k@) {
                    let w = choose|w: int| 0 <= w < t && #[trigger] c.key_seq().take(t)[w] == k@;
                    assert(c.key_seq()[w] == c.key_seq()[t]);
                }
            }
            assert(c.key_seq().take(t + 1) =~= c.key_seq().take(t).push(k@));
            assert forall|k2: Seq<char>| #[trigger]
                c.key_seq().take(t + 1).contains(k2) <==> c.key_seq().take(t).contains(k2) || k2
                    == k@ by {
                if c.key_seq().take(t + 1).contains(k2) {
                    let w = choose|w: int|
                        0 <= w < t + 1 && #[trigger] c.key_seq().take(t + 1)[w] == k2;
                    if w < t {
                        assert(c.key_seq().take(t)[w] == k2);
                    }
                }
                if c.key_seq().take(t).contains(k2) {
                    let w = choose|w: int| 0 <= w < t && #[trigger] c.key_seq().take(t)[w] == k2;
                    assert(c.key_seq().take(t + 1)[w] == k2);
                }
                if k2 == k@ {
                    assert(c.key_seq().take(t + 1)[t] == k2);
                }
            }
        }
        let ghost held = rr.has_key(k@);
        r.insert(k, v);
        proof {
            if held {
                assert(p.has_key(k@));
                reveal(Seq::filter);
                assert(c.key_seq().take(t + 1).drop_last() =~= c.key_seq().take(t));
                assert(c.key_seq().take(t + 1).last() == k@);
                assert(!pred(k@));
                assert(c.key_seq().take(t + 1).filter(pred) =~= c.key_seq().take(t).filter(pred));
                assert(r.key_seq() == rr.key_seq());
                let f = find_key(rr.key_seq(), k@);
                lemma_find_key(rr.key_seq(), k@);
                assert(r.spec_get(k@) == fd_view(v)) by {
                    assert(find_key(r.key_seq(), k@) == f);
                    assert(r.val_seq()[f] == fd_view(v));
                }
                assert forall|k2: Seq<char>|
                    rr.has_key(k2) && k2 != k@ implies #[trigger] r.spec_get(k2) == rr.spec_get(
                    k2,
                ) by {
                    lemma_find_key(rr.key_seq(), k2);
                    assert(find_key(r.key_seq(), k2) != f);
                }
                assert(forall|k2: Seq<char>| #[trigger] r.has_key(k2) == rr.has_key(k2));
            } else {
                assert(!p.has_key(k@));
                assert(pred(k@));
                reveal(Seq::filter);
                assert(c.key_seq().take(t + 1).drop_last() =~= c.key_seq().take(t));
                assert(c.key_seq().take(t + 1).last() == k@);
                assert(c.key_seq().take(t + 1).filter(pred) =~= c.key_seq().take(t).filter(
                    pred,
                ).push(k@));
                assert(r.key_seq() =~= p.key_seq() + c.key_seq().take(t + 1).filter(pred));
                assert forall|k2: Seq<char>|
                    rr.has_key(k2) && k2 != k@ implies #[trigger] r.spec_get(k2) == rr.spec_get(
                    k2,
                ) by {
                    lemma_find_key_push(rr.key_seq(), k@, k2);
                    lemma_find_key(rr.key_seq(), k2);
                }
                assert forall|k2: Seq<char>| #[trigger]
                    r.has_key(k2) <==> rr.has_key(k2) || k2 == k@ by {
                    lemma_find_key_push(rr.key_seq(), k@, k2);
                    lemma_find_key(rr.key_seq(), k2);
                }
                assert(r.has_key(k@)) by {
                    lemma_find_key_push(rr.key_seq(), k@, k@);
                }
                assert(r.spec_get(k@) == fd_view(v)) by {
                    lemma_find_key_push(rr.key_seq(), k@, k@);
                    assert(find_key(r.key_seq(), k@) == rr.key_seq().len());
                }
                assert forall|k2: Seq<char>|
                    #[trigger] p.has_key(k2) implies find_key(r.key_seq(), k2) == find_key(
                    p.key_seq(),
                    k2,
                ) by {
                    lemma_find_key_push(rr.key_seq(), k@, k2);
                    lemma_find_key(p.key_seq(), k2);
                }
            }
        }
        proof {
            t = t + 1;
        }
    }
    proof {
        assert(c.key_seq().take(total as int) =~= c.key_seq());
        assert(rest.key_seq().len() == 0);
        assert(forall|k: Seq<char>|
            #[trigger] c.has_key(k) ==> c.key_seq().contains(k)) by {
            assert forall|k: Seq<char>| #[trigger] c.has_key(k) implies c.key_seq().contains(
                k,
            ) by {
                lemma_find_key(c.key_seq(), k);
            }
        }
        assert(forall|k: Seq<char>|
            c.key_seq().contains(k) ==> #[trigger] c.has_key(k)) by {
            assert forall|k: Seq<char>| c.key_seq().contains(k) implies #[trigger] c.has_key(
                k,
            ) by {
                let w = choose|w: int| 0 <= w < c.key_seq().len() && c.key_seq()[w] == k;
                crate::store::lemma_find_key_distinct(c.key_seq(), w);
            }
        }
    }
    r
}

/// A schema file as read from disk: YAML keys mapped to plain values.
pub struct RawSchema {
    /// The parent schema's name, when the schema inherits.
    pub based_on: Option<String>,
    /// Whether parts are excluded from the bill of materials, when set.
    pub exclude_from_bom: Option<bool>,
    /// Whether parts are excluded from the board, when set.
    pub exclude_from_board: Option<bool>,
    /// Whether parts are excluded from simulation, when set.
    pub exclude_from_sim: Option<bool>,
    /// The schema's own fields.
    pub fields: FieldMap,
}

/// A schema with its parent's fields merged in and the three exclusion
/// booleans settled.
pub struct ResolvedSchema {
    /// Whether parts are excluded from the bill of materials.
    pub exclude_from_bom: bool,
    /// Whether parts are excluded from the board.
    pub exclude_from_board: bool,
    /// Whether parts are excluded from simulation.
    pub exclude_from_sim: bool,
    /// All fields, parent's first.
    pub fields: FieldMap,
}

/// How one tri-state exclusion flag resolves: the child's explicit value
/// wins; an omitted value inherits the parent's.
pub open spec fn resolved_flag(child: Option<bool>, parent: bool) -> bool {
    match child {
        Some(b) => b,
        None => parent,
    }
}

/// A child's explicit exclusion boolean always wins — even an explicit
/// `false` over a parent's `true` — and an omitted one inherits.
pub proof fn lemma_exclusion_resolution(b: bool, parent: bool)
    ensures
        resolved_flag(Some(b), parent) == b,
        resolved_flag(None, parent) == parent,
{
}

/// Resolve one tri-state exclusion flag.
pub fn resolve_flag(child: &Option<bool>, parent: bool) -> (r: bool)
    ensures
        r == resolved_flag(*child, parent),
{
    match child {
        Some(b) => *b,
        None => parent,
    }
}

/// A resolved schema's field-key set is exactly the union of its parent's
/// and its own, and every key the parent also has keeps the parent's
/// position.
pub proof fn lemma_resolved_field_keys(parent: FieldMap, child: FieldMap, merged: FieldMap)
    requires
        parent.wf(),
        child.wf(),
        merge_post(parent, child, merged),
    ensures
        merged.key_seq().to_set() == parent.key_seq().to_set().union(child.key_seq().to_set()),
        forall|k: Seq<char>|
            #[trigger] parent.has_key(k) ==> find_key(merged.key_seq(), k) == find_key(
                parent.key_seq(),
                k,
            ),
{
    broadcast use vstd::seq_lib::group_seq_properties;

    assert forall|k: Seq<char>|
        #[trigger] merged.key_seq().to_set().contains(k)
            <==> parent.key_seq().to_set().union(child.key_seq().to_set()).contains(k) by {
        lemma_contains_has_key(merged, k);
        lemma_contains_has_key(parent, k);
        lemma_contains_has_key(child, k);
    }
    assert(merged.key_seq().to_set() =~= parent.key_seq().to_set().union(
        child.key_seq().to_set(),
    ));
}

/// A well-formed map holds a key exactly when its key sequence does.
pub proof fn lemma_contains_has_key(m: FieldMap, k: Seq<char>)
    ensures
        m.key_seq().to_set().contains(k) <==> m.has_key(k),
{
    broadcast use vstd::seq_lib::group_seq_properties;

    lemma_find_key(m.key_seq(), k);
    if m.key_seq().contains(k) {
        let w = choose|w: int| 0 <= w < m.key_seq().len() && m.key_seq()[w] == k;
        if find_key(m.key_seq(), k) < 0 {
            assert(m.key_seq()[w] != k);
        }
    }
}

/// Resolve a child schema against its already-resolved parent: fields
/// merged parent-first, exclusion flags child-wins-or-inherits.
pub fn resolve_with_parent(parent: ResolvedSchema, child: RawSchema) -> (r: ResolvedSchema)
    requires
        parent.fields.wf(),
        child.fields.wf(),
    ensures
        merge_post(parent.fields, child.fields, r.fields),
        r.exclude_from_bom == resolved_flag(child.exclude_from_bom, parent.exclude_from_bom),
        r.exclude_from_board == resolved_flag(child.exclude_from_board, parent.exclude_from_board),
        r.exclude_from_sim == resolved_flag(child.exclude_from_sim, parent.exclude_from_sim),
{
    let exclude_from_bom = resolve_flag(&child.exclude_from_bom, parent.exclude_from_bom);
    let exclude_from_board = resolve_flag(&child.exclude_from_board, parent.exclude_from_board);
    let exclude_from_sim = resolve_flag(&child.exclude_from_sim, parent.exclude_from_sim);
    let fields = merge_fields(parent.fields, child.fields);
    ResolvedSchema { exclude_from_bom, exclude_from_board, exclude_from_sim, fields }
}

/// Resolve a schema with no parent: its own fields, and absent exclusion
/// flags default to false.
pub fn resolve_root(raw: RawSchema) -> (r: ResolvedSchema)
    requires
        raw.fields.wf(),
    ensures
        r.fields == raw.fields,
        r.exclude_from_bom == resolved_flag(raw.exclude_from_bom, false),
        r.exclude_from_board == resolved_flag(raw.exclude_from_board, false),
        r.exclude_from_sim == resolved_flag(raw.exclude_from_sim, false),
{
    let exclude_from_bom = resolve_flag(&raw.exclude_from_bom, false);
    let exclude_from_board = resolve_flag(&raw.exclude_from_board, false);
    let exclude_from_sim = resolve_flag(&raw.exclude_from_sim, false);
    ResolvedSchema { exclude_from_bom, exclude_from_board, exclude_from_sim, fields: raw.fields }
}

/// One schema file in a templates directory, as handed over by whoever
/// read and parsed it.
pub enum SchemaFile {
    /// The file parsed; here is its schema.
    Parsed(RawSchema),
    /// The file did not parse; here is the parser's message.
    Broken(String),
}

/// The parsed templates directory: schema names (file stems) with what
/// each file held. Broken files only surface when resolution needs them.
pub struct SchemaDir {
    names: Vec<String>,
    files: Vec<SchemaFile>,
}

impl SchemaDir {
    /// The schema names present.
    pub closed spec fn name_seq(self) -> Seq<Seq<char>> {
        self.names.deep_view()
    }

    /// One file per name.
    pub closed spec fn wf(self) -> bool {
        self.names@.len() == self.files@.len()
    }

    /// An empty directory.
    pub fn new() -> (r: SchemaDir)
        ensures
            r.wf(),
            r.name_seq().len() == 0,
    {
        let r = SchemaDir { names: Vec::new(), files: Vec::new() };
        proof {
            assert(r.name_seq() =~= Seq::<Seq<char>>::empty());
        }
        r
    }

    /// Record one schema file under its name: the name now resolves to
    /// this file, and every other name resolves as before. A repeated
    /// name shadows the earlier entry.
    pub fn add(&mut self, name: String, file: SchemaFile)
        requires
            old(self).wf(),
        ensures
            final(self).wf(),
            final(self).name_seq() == old(self).name_seq().push(name@),
            file_of(*final(self), name@) == Some(file),
            forall|n: Seq<char>|
                n != name@ ==> file_of(*final(self), n) == file_of(*old(self), n),
    {
        let ghost f = file;
        self.names.push(name);
        self.files.push(file);
        proof {
            assert(self.name_seq() =~~= old(self).name_seq().push(
                self.names@[self.names@.len() - 1]@,
            ));
            let pre = old(self).name_seq();
            let post = self.name_seq();
            assert(post.drop_last() =~= pre);
            assert(post.last() == self.names@[self.names@.len() - 1]@);
            assert(last_name_idx(post, post.last()) == pre.len());
            assert(self.spec_file_at(pre.len() as int) == f);
            assert forall|n: Seq<char>| n != post.last() implies file_of(*self, n) == file_of(
                *old(self),
                n,
            ) by {
                assert(last_name_idx(post, n) == last_name_idx(pre, n));
                if last_name_idx(pre, n) >= 0 {
                    lemma_last_name_idx(pre, n);
                    assert(self.spec_file_at(last_name_idx(pre, n)) == old(self).spec_file_at(
                        last_name_idx(pre, n),
                    ));
                }
            }
        }
    }

    /// The file recorded under `name`: the latest entry wins.
    fn lookup(&self, name: &String) -> (r: Option<&SchemaFile>)
        requires
            self.wf(),
        ensures
            r is Some <==> file_of(*self, name@) is Some,
            r matches Some(f) ==> Some(*f) == file_of(*self, name@),
    {
        proof {
            lemma_last_name_idx(self.name_seq(), name@);
        }
        let mut i: usize = self.names.len();
        while i > 0
            invariant
                0 <= i <= self.names@.len(),
                self.wf(),
                forall|j: int| i <= j < self.name_seq().len() ==> self.name_seq()[j] != name@,
            decreases i,
        {
            i = i - 1;
            if self.names[i] == *name {
                proof {
                    assert(self.name_seq()[i as int] == name@);
                    assert(self.files@[i as int] == self.spec_file_at(i as int));
                    lemma_last_name_idx(self.name_seq(), name@);
                    let l = last_name_idx(self.name_seq(), name@);
                    if l != i {
                        if l < 0 {
                            assert(self.name_seq()[i as int] != name@);
                        } else if l < i {
                            assert(self.name_seq()[i as int] != name@);
                        } else {
                            assert(self.name_seq()[l] != name@);
                        }
                    }
                    assert(l == i);
                }
                return Some(&self.files[i]);
            }
            proof {
                assert(self.name_seq()[i as int] == self.names@[i as int]@);
            }
        }
        proof {
            lemma_last_name_idx(self.name_seq(), name@);
            let l = last_name_idx(self.name_seq(), name@);
            if l >= 0 {
                assert(self.name_seq()[l] != name@);
            }
        }
        None
    }

    /// How many schemas the directory holds.
    pub fn len(&self) -> (n: usize)
        ensures
            n == self.name_seq().len(),
    {
        self.names.len()
    }
}

/// A copy of a raw schema.
fn clone_raw(raw: &RawSchema) -> (r: RawSchema)
    requires
        raw.fields.wf(),
    ensures
        r.fields.wf(),
        r.fields.key_seq() == raw.fields.key_seq(),
        r.fields.val_seq() == raw.fields.val_seq(),
        opt_view(r.based_on) == opt_view(raw.based_on),
        r.exclude_from_bom == raw.exclude_from_bom,
        r.exclude_from_board == raw.exclude_from_board,
        r.exclude_from_sim == raw.exclude_from_sim,
{
    let mut fields = FieldMap::new();
    let mut i: usize = 0;
    while i < raw.fields.len()
        invariant
            0 <= i <= raw.fields.key_seq().len(),
            raw.fields.wf(),
            fields.wf(),
            fields.key_seq() == raw.fields.key_seq().take(i as int),
            fields.val_seq() == raw.fields.val_seq().take(i as int),
        decreases raw.fields.key_seq().len() - i,
    {
        let ghost before = fields;
        let k = raw.fields.key_at(i).clone();
        let v = raw.fields.val_at(i).clone_def();
        proof {
            lemma_find_key(before.key_seq(), k@);
            if before.has_key(k@) {
                let f = find_key(before.key_seq(), k@);
                assert(raw.fields.key_seq()[f] == raw.fields.key_seq()[i as int]);
            }
        }
        fields.insert(k, v);
        proof {
            assert(fields.key_seq() =~= raw.fields.key_seq().take(i + 1));
            assert(fields.val_seq() =~= raw.fields.val_seq().take(i + 1));
        }
        i = i + 1;
    }
    proof {
        assert(raw.fields.key_seq().take(raw.fields.key_seq().len() as int)
            =~= raw.fields.key_seq());
        assert(raw.fields.val_seq().take(raw.fields.val_seq().len() as int)
            =~= raw.fields.val_seq());
    }
    RawSchema {
        based_on: match &raw.based_on {
            Some(b) => Some(b.clone()),
            None => None,
        },
        exclude_from_bom: match raw.exclude_from_bom {
            Some(b) => Some(b),
            None => None,
        },
        exclude_from_board: match raw.exclude_from_board {
            Some(b) => Some(b),
            None => None,
        },
        exclude_from_sim: match raw.exclude_from_sim {
            Some(b) => Some(b),
            None => None,
        },
        fields,
    }
}

/// Position of the last entry with this name, or `-1`; the latest entry
/// for a name shadows earlier ones.
pub open spec fn last_name_idx(names: Seq<Seq<char>>, name: Seq<char>) -> int
    decreases names.len(),
{
    if names.len() == 0 {
        -1
    } else if names.last() == name {
        names.len() - 1
    } else {
        last_name_idx(names.drop_last(), name)
    }
}

/// What `last_name_idx` returns: the largest matching position, or `-1`.
pub proof fn lemma_last_name_idx(names: Seq<Seq<char>>, name: Seq<char>)
    ensures
        last_name_idx(names, name) < 0 ==> forall|i: int|
            0 <= i < names.len() ==> names[i] != name,
        last_name_idx(names, name) >= 0 ==> last_name_idx(names, name) < names.len()
            && names[last_name_idx(names, name)] == name && forall|i: int|
            last_name_idx(names, name) < i < names.len() ==> names[i] != name,
    decreases names.len(),
{
    if names.len() > 0 && names.last() != name {
        lemma_last_name_idx(names.drop_last(), name);
        assert(forall|i: int| 0 <= i < names.len() - 1 ==> names[i] == names.drop_last()[i]);
    }
}

/// The file a name resolves to in the directory, if any.
pub open spec fn file_of(dir: SchemaDir, name: Seq<char>) -> Option<SchemaFile> {
    if last_name_idx(dir.name_seq(), name) >= 0 {
        Some(dir.spec_file_at(last_name_idx(dir.name_seq(), name)))
    } else {
        None
    }
}

/// The magic parent name, as characters.
pub open spec fn base_key() -> Seq<char> {
    seq!['_', 'b', 'a', 's', 'e']
}

/// How following a `based_on` chain ends.
pub enum ChainOutcome {
    /// The raw schemas from the named one up to a root, child first, and
    /// whether the chain still owes the directory default as its final
    /// parent.
    Resolved(Seq<RawSchema>, bool),
    /// A needed schema has no file; the payload names it.
    MissingAt(Seq<char>),
    /// A needed file did not parse; the payload is the parser's message.
    BrokenAt(Seq<char>),
    /// The chain revisits a name (or never ends); the payload names the
    /// schema at which following stopped.
    CycleAt(Seq<char>),
}

/// Follow a `based_on` chain: the named schema, then parent after parent,
/// until a schema without a parent, the directory default, a missing or
/// broken file, or a revisited name. `fuel` bounds the walk; running out
/// counts as a cycle, and with fuel exceeding the directory size it only
/// runs out on one.
pub open spec fn chain_of(
    dir: SchemaDir,
    name: Seq<char>,
    visited: Seq<Seq<char>>,
    fuel: nat,
) -> ChainOutcome
    decreases fuel,
{
    if fuel == 0 {
        ChainOutcome::CycleAt(name)
    } else if name == base_key() {
        ChainOutcome::Resolved(Seq::empty(), true)
    } else if visited.contains(name) {
        ChainOutcome::CycleAt(name)
    } else {
        match file_of(dir, name) {
            Option::None => ChainOutcome::MissingAt(name),
            Option::Some(SchemaFile::Broken(m)) => ChainOutcome::BrokenAt(m@),
            Option::Some(SchemaFile::Parsed(raw)) => match opt_view(raw.based_on) {
                Option::None => ChainOutcome::Resolved(seq![raw], false),
                Option::Some(p) => match chain_of(dir, p, visited.push(name), (fuel - 1) as nat) {
                    ChainOutcome::Resolved(rest, owed) => ChainOutcome::Resolved(
                        seq![raw] + rest,
                        owed,
                    ),
                    e => e,
                },
            },
        }
    }
}

/// A raw chain prefix prepended to a chain outcome.
pub open spec fn with_prefix(pre: Seq<RawSchema>, oc: ChainOutcome) -> ChainOutcome {
    match oc {
        ChainOutcome::Resolved(c, owed) => ChainOutcome::Resolved(pre + c, owed),
        e => e,
    }
}

/// The walk budget: two more steps than the directory has names, so fuel
/// only runs out on a chain that revisits a name.
pub open spec fn start_fuel(dir: SchemaDir) -> nat {
    if dir.name_seq().len() + 2 <= usize::MAX {
        (dir.name_seq().len() + 2) as nat
    } else {
        usize::MAX as nat
    }
}

/// How resolving this name in this directory ends.
pub open spec fn schema_outcome(dir: SchemaDir, name: Seq<char>) -> ChainOutcome {
    chain_of(dir, name, Seq::empty(), start_fuel(dir))
}

/// A root schema resolved on its own: its fields, and absent exclusion
/// flags defaulting to false.
pub open spec fn root_step(raw: RawSchema, out: ResolvedSchema) -> bool {
    &&& out.fields.key_seq() == raw.fields.key_seq()
    &&& out.fields.val_seq() == raw.fields.val_seq()
    &&& out.exclude_from_bom == resolved_flag(raw.exclude_from_bom, false)
    &&& out.exclude_from_board == resolved_flag(raw.exclude_from_board, false)
    &&& out.exclude_from_sim == resolved_flag(raw.exclude_from_sim, false)
}

/// One inheritance step: the child's fields merged over the resolved
/// parent's, and each exclusion flag taken from the child when set, else
/// inherited.
pub open spec fn merge_step(parent: ResolvedSchema, child: RawSchema, out: ResolvedSchema) -> bool {
    &&& merge_post(parent.fields, child.fields, out.fields)
    &&& out.exclude_from_bom == resolved_flag(child.exclude_from_bom, parent.exclude_from_bom)
    &&& out.exclude_from_board == resolved_flag(child.exclude_from_board, parent.exclude_from_board)
    &&& out.exclude_from_sim == resolved_flag(child.exclude_from_sim, parent.exclude_from_sim)
}

/// `rs` is the fold of the chain `e` (child first): the last element
/// resolved as a root, then every earlier element merged over the stage
/// below it, witnessed by the intermediate stages.
pub open spec fn chain_resolves_to(
    e: Seq<RawSchema>,
    stages: Seq<ResolvedSchema>,
    rs: ResolvedSchema,
) -> bool {
    &&& e.len() >= 1
    &&& stages.len() == e.len()
    &&& root_step(e.last(), stages.last())
    &&& forall|i: int| 0 <= i < e.len() - 1 ==> merge_step(#[trigger] stages[i + 1], e[i], stages[i])
    &&& rs == stages[0]
}

/// The whole chain an outcome folds: the walked schemas, with the
/// directory default appended when the chain owes it.
pub open spec fn whole_chain(dir: SchemaDir, c: Seq<RawSchema>, owed: bool) -> Seq<RawSchema> {
    if owed {
        c.push(file_of(dir, base_key())->Some_0->Parsed_0)
    } else {
        c
    }
}

/// An `Ok` result is the fold of the walked chain, with the directory
/// default appended as the final parent when the chain owes it.
pub open spec fn ok_resolves(dir: SchemaDir, c: Seq<RawSchema>, owed: bool, rs: ResolvedSchema) -> bool {
    exists|stages: Seq<ResolvedSchema>|
        chain_resolves_to(whole_chain(dir, c, owed), stages, rs)
}

/// Everything `load_schema` promises, by how the chain walk ends: each
/// failure surfaces as its own error naming the culprit; success comes
/// exactly when the chain resolves (and, where the directory default is
/// owed, its file is present and parsed), and the result is then the fold
/// of the chain, one `merge_step` per inheritance link over a `root_step`.
pub open spec fn load_schema_post(
    dir: SchemaDir,
    name: Seq<char>,
    r: Result<ResolvedSchema, SchemaError>,
) -> bool {
    match schema_outcome(dir, name) {
        ChainOutcome::MissingAt(m) => r matches Err(SchemaError::MissingParent(n)) && n@ == m,
        ChainOutcome::CycleAt(m) => r matches Err(SchemaError::Cycle(n)) && n@ == m,
        ChainOutcome::BrokenAt(b) => r matches Err(SchemaError::Yaml(y)) && y@ == b,
        ChainOutcome::Resolved(c, owed) => if owed {
            match file_of(dir, base_key()) {
                Option::None => r matches Err(SchemaError::MissingBase(x)),
                Option::Some(SchemaFile::Broken(bm)) => r matches Err(SchemaError::Yaml(y)) && y@
                    == bm@,
                Option::Some(SchemaFile::Parsed(b)) => r matches Ok(rs) && rs.fields.wf()
                    && ok_resolves(dir, c, true, rs),
            }
        } else {
            r matches Ok(rs) && rs.fields.wf() && ok_resolves(dir, c, false, rs)
        },
    }
}

/// `merge_post` reads the child map only through its views, so it carries
/// over to any map with the same keys and descriptors.
proof fn lemma_merge_post_child_views(p: FieldMap, c1: FieldMap, c2: FieldMap, r: FieldMap)
    requires
        c1.key_seq() == c2.key_seq(),
        c1.val_seq() == c2.val_seq(),
        merge_post(p, c1, r),
    ensures
        merge_post(p, c2, r),
{
    assert(forall|k: Seq<char>| #[trigger] c1.has_key(k) == c2.has_key(k));
    assert(forall|k: Seq<char>| #[trigger] c1.spec_get(k) == c2.spec_get(k));
    assert(c1.key_seq().filter(|k: Seq<char>| !p.has_key(k)) == c2.key_seq().filter(
        |k: Seq<char>| !p.has_key(k),
    ));
    assert forall|k: Seq<char>| #[trigger] r.has_key(k) <==> p.has_key(k) || c2.has_key(k) by {
        assert(r.has_key(k) <==> p.has_key(k) || c1.has_key(k));
    }
    assert forall|k: Seq<char>| #[trigger] c2.has_key(k) implies r.spec_get(k) == c2.spec_get(
        k,
    ) by {
        assert(c1.has_key(k));
        assert(r.spec_get(k) == c1.spec_get(k));
    }
    assert forall|k: Seq<char>| !c2.has_key(k) && #[trigger] p.has_key(k) implies r.spec_get(k)
        == p.spec_get(k) by {
        assert(!c1.has_key(k));
    }
}

/// The magic parent name that refers to the directory-level default.
fn base_name() -> (s: String)
    ensures
        s@ =~= seq!['_', 'b', 'a', 's', 'e'],
{
    let lit: &str = "_base";
    proof {
        reveal_strlit("_base");
    }
    String::from_str(lit)
}

/// A result with the right fold is everything `load_schema_post` asks of
/// a success.
#[verifier::rlimit(100)]
proof fn lemma_ok_post(
    dir: SchemaDir,
    name: Seq<char>,
    resolved: ResolvedSchema,
    pre: Seq<RawSchema>,
    owed: bool,
    e: Seq<RawSchema>,
)
    requires
        schema_outcome(dir, name) == ChainOutcome::Resolved(pre, owed),
        owed ==> (file_of(dir, base_key()) matches Some(SchemaFile::Parsed(b)) && e == pre.push(
            b,
        )),
        !owed ==> e == pre,
        resolved.fields.wf(),
        exists|stages: Seq<ResolvedSchema>| chain_resolves_to(e, stages, resolved),
    ensures
        load_schema_post(dir, name, Ok(resolved)),
{
    let oc = schema_outcome(dir, name);
    match oc {
        ChainOutcome::Resolved(c, w) => {
            assert(c == pre && w == owed);
            let st = choose|stages: Seq<ResolvedSchema>|
                chain_resolves_to(e, stages, resolved);
            assert(chain_resolves_to(e, st, resolved));
            let target = whole_chain(dir, pre, owed);
            if owed {
                match file_of(dir, base_key()) {
                    Option::Some(SchemaFile::Parsed(b)) => {
                        assert(e == pre.push(b));
                        assert(target == e);
                    },
                    _ => {
                        assert(false);
                    },
                }
            } else {
                assert(target == e);
            }
            assert(chain_resolves_to(target, st, resolved));
            assert(ok_resolves(dir, pre, owed, resolved));
        },
        _ => {
            assert(false);
        },
    }
}

/// Two raw schemas that agree in every observable piece: field keys and
/// descriptors, parent name, and the three exclusion flags.
pub open spec fn raw_views_match(a: RawSchema, b: RawSchema) -> bool {
    &&& a.fields.key_seq() == b.fields.key_seq()
    &&& a.fields.val_seq() == b.fields.val_seq()
    &&& opt_view(a.based_on) == opt_view(b.based_on)
    &&& a.exclude_from_bom == b.exclude_from_bom
    &&& a.exclude_from_board == b.exclude_from_board
    &&& a.exclude_from_sim == b.exclude_from_sim
}

/// Fold the walked children over an already-resolved root: one
/// `merge_step` per element, last to first.
fn fold_children(
    mut chain: Vec<RawSchema>,
    root_resolved: ResolvedSchema,
    Ghost(e): Ghost<Seq<RawSchema>>,
    Ghost(st0): Ghost<Seq<ResolvedSchema>>,
) -> (r: ResolvedSchema)
    requires
        chain@.len() < e.len(),
        forall|i: int| 0 <= i < chain@.len() ==> raw_views_match(#[trigger] chain@[i], e[i]),
        forall|i: int| 0 <= i < chain@.len() ==> (#[trigger] chain@[i]).fields.wf(),
        root_resolved.fields.wf(),
        chain_resolves_to(e.skip(chain@.len() as int), st0, root_resolved),
    ensures
        r.fields.wf(),
        exists|stages: Seq<ResolvedSchema>| chain_resolves_to(e, stages, r),
{
    let mut resolved = root_resolved;
    let ghost mut stages: Seq<ResolvedSchema> = st0;
    while chain.len() > 0
        invariant
            chain@.len() < e.len(),
            forall|i: int| 0 <= i < chain@.len() ==> raw_views_match(#[trigger] chain@[i], e[i]),
            forall|i: int| 0 <= i < chain@.len() ==> (#[trigger] chain@[i]).fields.wf(),
            resolved.fields.wf(),
            chain_resolves_to(e.skip(chain@.len() as int), stages, resolved),
        decreases chain@.len(),
    {
        let ghost j = chain@.len() - 1;
        let popped = chain.pop();
        let child_cl = match popped {
            Some(c) => c,
            None => {
                proof {
                    assert(false);
                }
                return resolved;
            },
        };
        let ghost childv = child_cl;
        let ghost parent_res = resolved;
        let ghost stages_before = stages;
        resolved = resolve_with_parent(resolved, child_cl);
        proof {
            assert(raw_views_match(childv, e[j]));
            lemma_merge_post_child_views(
                parent_res.fields,
                childv.fields,
                e[j].fields,
                resolved.fields,
            );
            assert(merge_step(parent_res, e[j], resolved));
            stages = seq![resolved] + stages;
            assert(chain_resolves_to(e.skip(j), stages, resolved)) by {
                assert(e.skip(j).len() == stages.len());
                assert(e.skip(j).last() == e.last());
                assert(stages.last() == stages_before.last());
                assert forall|i: int| 0 <= i < e.skip(j).len() - 1 implies merge_step(
                    #[trigger] stages[i + 1],
                    e.skip(j)[i],
                    stages[i],
                ) by {
                    if i == 0 {
                        assert(stages[1] == stages_before[0]);
                        assert(e.skip(j)[0] == e[j]);
                    } else {
                        assert(stages[i + 1] == stages_before[i]);
                        assert(stages[i] == stages_before[i - 1]);
                        assert(e.skip(j)[i] == e.skip(j + 1)[i - 1]);
                        assert(merge_step(
                            stages_before[(i - 1) + 1],
                            e.skip(j + 1)[i - 1],
                            stages_before[i - 1],
                        ));
                    }
                }
            }
        }
    }
    proof {
        assert(chain@.len() == 0);
        assert(chain_resolves_to(e.skip(0), stages, resolved));
        assert(e.skip(0) =~= e);
        assert(chain_resolves_to(e, stages, resolved));
    }
    resolved
}

/// Load and resolve a named schema: follow its `based_on` chain up to a
/// root or to the directory default, then merge fields parent-first and
/// settle the exclusion flags child-over-parent. A revisited name is a
/// cycle error; a missing parent file is an error naming it. The whole
/// behavior — when each error comes, when success is owed, and what the
/// result is — stands in `load_schema_post`.
#[verifier::rlimit(100)]
pub fn load_schema(dir: &SchemaDir, schema_name: &str) -> (r: Result<ResolvedSchema, SchemaError>)
    requires
        dir.wf(),
        forall|i: int| 0 <= i < dir.name_seq().len() ==> raw_at_wf(*dir, i),
    ensures
        load_schema_post(*dir, schema_name@, r),
{
    let ghost oc0 = schema_outcome(*dir, schema_name@);
    let base = base_name();
    let target = String::from_str(schema_name);
    let dir_len = dir.len();
    let mut fuel_left: usize = if dir_len < usize::MAX - 2 {
        dir_len + 2
    } else {
        usize::MAX
    };
    proof {
        assert(base@ == base_key());
        assert(fuel_left as nat == start_fuel(*dir));
    }
    let mut chain: Vec<RawSchema> = Vec::new();
    let ghost mut pre: Seq<RawSchema> = Seq::empty();
    let mut visited: Vec<String> = Vec::new();
    let mut current = target;
    let mut base_owed = false;
    proof {
        assert(visited.deep_view() =~~= Seq::<Seq<char>>::empty());
        match chain_of(*dir, current@, visited.deep_view(), fuel_left as nat) {
            ChainOutcome::Resolved(c, w) => {
                assert(pre + c =~= c);
            },
            _ => {},
        }
        assert(oc0 == with_prefix(
            pre,
            chain_of(*dir, current@, visited.deep_view(), fuel_left as nat),
        ));
    }
    loop
        invariant_except_break
            dir.wf(),
            forall|i: int| 0 <= i < dir.name_seq().len() ==> raw_at_wf(*dir, i),
            base@ == base_key(),
            oc0 == schema_outcome(*dir, schema_name@),
            chain@.len() == pre.len(),
            forall|i: int| 0 <= i < chain@.len() ==> raw_views_match(#[trigger] chain@[i], pre[i]),
            forall|i: int| 0 <= i < chain@.len() ==> (#[trigger] chain@[i]).fields.wf(),
            base_owed == false,
            oc0 == with_prefix(
                pre,
                chain_of(*dir, current@, visited.deep_view(), fuel_left as nat),
            ),
        ensures
            oc0 == schema_outcome(*dir, schema_name@),
            chain@.len() == pre.len(),
            forall|i: int| 0 <= i < chain@.len() ==> raw_views_match(#[trigger] chain@[i], pre[i]),
            forall|i: int| 0 <= i < chain@.len() ==> (#[trigger] chain@[i]).fields.wf(),
            oc0 == ChainOutcome::Resolved(pre, base_owed),
            !base_owed ==> pre.len() >= 1,
        decreases fuel_left,
    {
        let ghost vis_before = visited.deep_view();
        let ghost fuel_before = fuel_left as nat;
        let ghost here = chain_of(*dir, current@, vis_before, fuel_before);
        if fuel_left == 0 {
            proof {
                assert(here == ChainOutcome::CycleAt(current@));
            }
            return Err(SchemaError::Cycle(current));
        }
        if current == base {
            base_owed = true;
            proof {
                assert(current@ == base_key());
                assert(here == ChainOutcome::Resolved(Seq::<RawSchema>::empty(), true));
                assert(pre + Seq::<RawSchema>::empty() =~= pre);
                assert(oc0 == ChainOutcome::Resolved(pre, true));
            }
            break ;
        }
        if crate::store::contains_string(&visited, &current) {
            proof {
                assert(vis_before.contains(current@));
                assert(here == ChainOutcome::CycleAt(current@));
            }
            return Err(SchemaError::Cycle(current));
        }
        let looked = dir.lookup(&current);
        let file = match looked {
            Some(f) => f,
            None => {
                proof {
                    assert(file_of(*dir, current@) is None);
                    assert(here == ChainOutcome::MissingAt(current@));
                }
                return Err(SchemaError::MissingParent(current));
            },
        };
        proof {
            lemma_looked_up_wf(*dir, current@, file);
            assert(Some(*file) == file_of(*dir, current@));
        }
        let raw = match file {
            SchemaFile::Parsed(rw) => rw,
            SchemaFile::Broken(m) => {
                proof {
                    assert(file_of(*dir, current@) == Some(SchemaFile::Broken(*m)));
                    assert(here == ChainOutcome::BrokenAt(m@));
                }
                return Err(SchemaError::Yaml(m.clone()));
            },
        };
        proof {
            assert(file_of(*dir, current@) == Some(SchemaFile::Parsed(*raw)));
        }
        let cl = clone_raw(raw);
        let ghost clv = cl;
        visited.push(current.clone());
        let next = match &cl.based_on {
            Some(p) => Some(p.clone()),
            None => None,
        };
        chain.push(cl);
        let ghost current_before = current@;
        let ghost pre_before = pre;
        proof {
            pre = pre.push(*raw);
            assert(visited.deep_view() =~~= vis_before.push(current_before));
            assert(opt_view(clv.based_on) == opt_view(raw.based_on));
            assert(oc0 == with_prefix(pre_before, here));
        }
        match next {
            Some(p) => {
                proof {
                    assert(opt_view(raw.based_on) == Some(p@));
                }
                current = p;
                fuel_left = fuel_left - 1;
                proof {
                    let rest = chain_of(*dir, current@, visited.deep_view(), fuel_left as nat);
                    assert(here == with_prefix(seq![*raw], rest));
                    match rest {
                        ChainOutcome::Resolved(c, w) => {
                            assert(pre_before + (seq![*raw] + c) =~= pre + c);
                            assert(with_prefix(pre_before, here) == ChainOutcome::Resolved(
                                pre_before + (seq![*raw] + c),
                                w,
                            ));
                        },
                        _ => {},
                    }
                    assert(oc0 == with_prefix(pre, rest));
                }
            },
            None => {
                proof {
                    assert(opt_view(raw.based_on) is None);
                    assert(here == ChainOutcome::Resolved(seq![*raw], false));
                    assert(pre_before + seq![*raw] =~= pre);
                    assert(with_prefix(pre_before, here) == ChainOutcome::Resolved(
                        pre_before + seq![*raw],
                        false,
                    ));
                    assert(oc0 == ChainOutcome::Resolved(pre, false));
                }
                break ;
            },
        }
    }
    let resolved: ResolvedSchema;
    let ghost mut e: Seq<RawSchema> = pre;
    if base_owed {
        let looked = dir.lookup(&base);
        let bfile = match looked {
            Some(f) => f,
            None => {
                return Err(SchemaError::MissingBase(base));
            },
        };
        proof {
            lemma_looked_up_wf(*dir, base@, bfile);
            assert(Some(*bfile) == file_of(*dir, base_key()));
        }
        match bfile {
            SchemaFile::Parsed(braw) => {
                let bcl = clone_raw(braw);
                let ghost bclv = bcl;
                let root_res = resolve_root(bcl);
                proof {
                    e = pre.push(*braw);
                    assert(root_step(*braw, root_res)) by {
                        assert(root_res.fields == bclv.fields);
                        assert(bclv.fields.key_seq() == braw.fields.key_seq());
                    }
                    assert(e.skip(chain@.len() as int) =~= seq![e.last()]);
                    assert(chain_resolves_to(
                        e.skip(chain@.len() as int),
                        seq![root_res],
                        root_res,
                    ));
                }
                let ghost st0 = seq![root_res];
                resolved = fold_children(chain, root_res, Ghost(e), Ghost(st0));
            },
            SchemaFile::Broken(m) => {
                return Err(SchemaError::Yaml(m.clone()));
            },
        }
    } else {
        let root_cl;
        let mut chain2 = chain;
        match chain2.pop() {
            Some(c) => {
                root_cl = c;
            },
            None => {
                proof {
                    assert(false);
                }
                return Err(SchemaError::MissingParent(String::from_str(schema_name)));
            },
        }
        let ghost rootv = root_cl;
        proof {
            assert(raw_views_match(rootv, pre[pre.len() - 1]));
        }
        let root_res = resolve_root(root_cl);
        proof {
            assert(root_step(e.last(), root_res)) by {
                assert(root_res.fields == rootv.fields);
            }
            assert(e.skip(chain2@.len() as int) =~= seq![e.last()]);
            assert(chain_resolves_to(e.skip(chain2@.len() as int), seq![root_res], root_res));
        }
        let ghost st0 = seq![root_res];
        resolved = fold_children(chain2, root_res, Ghost(e), Ghost(st0));
    }
    proof {
        if base_owed {
            assert(file_of(*dir, base_key()) matches Some(SchemaFile::Parsed(bb)) && e
                == pre.push(bb));
        }
        lemma_ok_post(*dir, schema_name@, resolved, pre, base_owed, e);
    }
    Ok(resolved)
}

/// Whether the schema recorded at position `i`/// Whether the schema recorded at position `i`/// Whether the schema recorded at position `i` (when parsed) is well
/// formed.
pub open spec fn raw_at_wf(dir: SchemaDir, i: int) -> bool {
    dir.spec_file_at(i) matches SchemaFile::Parsed(raw) ==> raw.fields.wf()
}

/// A file that lookup handed out is one of the directory's entries, so a
/// directory of well-formed schemas hands out a well-formed one.
proof fn lemma_looked_up_wf(dir: SchemaDir, name: Seq<char>, file: &SchemaFile)
    requires
        forall|i: int| 0 <= i < dir.name_seq().len() ==> raw_at_wf(dir, i),
        Some(*file) == file_of(dir, name),
    ensures
        *file matches SchemaFile::Parsed(raw) ==> raw.fields.wf(),
{
    lemma_last_name_idx(dir.name_seq(), name);
    let i = last_name_idx(dir.name_seq(), name);
    assert(raw_at_wf(dir, i));
}

impl SchemaDir {
    /// The file at position `i`.
    pub closed spec fn spec_file_at(self, i: int) -> SchemaFile {
        self.files@[i]
    }
}

/// Load and resolve a named template: the template-based name for
/// `load_schema`.
pub fn load_template(dir: &SchemaDir, schema_name: &str) -> (r: Result<ResolvedSchema, SchemaError>)
    requires
        dir.wf(),
        forall|i: int| 0 <= i < dir.name_seq().len() ==> raw_at_wf(*dir, i),
    ensures
        load_schema_post(*dir, schema_name@, r),
{
    load_schema(dir, schema_name)
}

} // verus!
