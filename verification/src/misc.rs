//! Small helpers shared by the command-line and tray front ends: the
//! scaffolding templates, the default schema, and the view of the active
//! project set.
use vstd::prelude::*;

verus! {

use crate::registry::PersistedRegistry;
use crate::scanner::last_sep_idx;
use crate::schema::{FieldDef, FieldMap, RawSchema, opt_view};
use crate::text::{string_to_chars, chars_to_string};
use vstd::string::StringExecFns;

/// ASCII upper-casing of one character.
pub open spec fn upper_char(c: char) -> char {
    if ('a' as u32) <= (c as u32) && (c as u32) <= ('z' as u32) {
        (((c as u32) - 32) as u8) as char
    } else {
        c
    }
}

/// A word with its first character upper-cased, ASCII only.
pub open spec fn capitalized(s: Seq<char>) -> Seq<char> {
    if s.len() == 0 {
        s
    } else {
        seq![upper_char(s[0])] + s.drop_first()
    }
}

/// Upper-case a word's first character, ASCII only.
pub fn capitalize(s: &str) -> (r: String)
    ensures
        r@ == capitalized(s@),
{
    let chars = crate::text::str_to_chars(s);
    if chars.len() == 0 {
        proof {
            assert(capitalized(s@) =~= s@);
        }
        return String::new();
    }
    let c = chars[0];
    let u = c as u32;
    let up: char = if 97 <= u && u <= 122 {
        ((u - 32) as u8) as char
    } else {
        proof {
            assert(('a' as u32) == 97 && ('z' as u32) == 122);
        }
        c
    };
    let mut out: Vec<char> = Vec::new();
    out.push(up);
    let mut i: usize = 1;
    while i < chars.len()
        invariant
            1 <= i <= chars@.len(),
            chars@ == s@,
            chars@.len() >= 1,
            out@ == seq![upper_char(s@[0])] + s@.subrange(1, i as int),
        decreases chars@.len() - i,
    {
        out.push(chars[i]);
        proof {
            assert(out@ =~= seq![upper_char(s@[0])] + s@.subrange(1, i + 1));
        }
        i = i + 1;
    }
    proof {
        assert(out@ =~= capitalized(s@));
    }
    chars_to_string(&out)
}

/// The schema file a freshly scaffolded part table starts from.
pub fn schema_template() -> (r: &'static str)
    ensures
        r@ == (
        "fields:\n  value:\n    display_name: Value\n    visible: true\n  description:\n    display_name: Description\n    visible: true\n  footprint:\n    display_name: Footprint\n    visible: false\n    type: kicad_footprint\n  symbol:\n    display_name: Symbol\n    visible: false\n    type: kicad_symbol\n  datasheet:\n    display_name: Datasheet\n    required: false\n    type: url\n")@,
{
    "fields:\n  value:\n    display_name: Value\n    visible: true\n  description:\n    display_name: Description\n    visible: true\n  footprint:\n    display_name: Footprint\n    visible: false\n    type: kicad_footprint\n  symbol:\n    display_name: Symbol\n    visible: false\n    type: kicad_symbol\n  datasheet:\n    display_name: Datasheet\n    required: false\n    type: url\n"
}

/// The CSV header row a freshly scaffolded part table starts from.
pub fn csv_template() -> (r: &'static str)
    ensures
        r@ == ("id,mpn,value,description,footprint,symbol,datasheet\n")@,
{
    "id,mpn,value,description,footprint,symbol,datasheet\n"
}

/// The default CSV header row for a new part table, matching the default
/// schema's field order.
pub fn default_csv_headers() -> (r: &'static str)
    ensures
        r@ == ("id,mpn,value,description,footprint,symbol,datasheet\n")@,
{
    "id,mpn,value,description,footprint,symbol,datasheet\n"
}

/// One default field.
fn default_field(
    display_name: &str,
    required: bool,
    visible: bool,
    field_type: Option<&str>,
) -> (r: FieldDef)
    ensures
        r.display_name@ == display_name@,
        r.required == required,
        r.visible == visible,
        r.description is None,
        field_type is None ==> r.field_type is None,
        field_type matches Some(t) ==> (r.field_type matches Some(u) && u@ == t@),
{
    FieldDef {
        display_name: String::from_str(display_name),
        required,
        visible,
        description: None,
        field_type: match field_type {
            Some(t) => Some(String::from_str(t)),
            None => None,
        },
    }
}

/// The default schema a scaffolded part table uses: value, description,
/// footprint, symbol and datasheet.
pub fn default_schema() -> (r: RawSchema)
    ensures
        r.based_on is None,
        r.exclude_from_bom is None,
        r.exclude_from_board is None,
        r.exclude_from_sim is None,
        r.fields.wf(),
        r.fields.key_seq().len() == 5,
{
    proof {
        reveal_strlit("value");
        reveal_strlit("description");
        reveal_strlit("footprint");
        reveal_strlit("symbol");
        reveal_strlit("datasheet");
    }
    let mut fields = FieldMap::new();
    fields.insert(String::from_str("value"), default_field("Value", true, true, None));
    proof {
        assert(fields.key_seq() =~= seq![("value")@]);
    }
    proof {
        reveal_strlit("value");
        reveal_strlit("description");
        reveal_strlit("footprint");
        reveal_strlit("symbol");
        reveal_strlit("datasheet");
        assert(("value")@.len() == 5);
        assert(("description")@.len() == 11);
        assert(("value")@ != ("description")@);
        assert(fields.key_seq().len() == 1);
        crate::rowmap::lemma_find_key(fields.key_seq(), ("description")@);
        assert(!fields.has_key(("description")@));
    }
    fields.insert(
        String::from_str("description"),
        default_field("Description", true, false, None),
    );
    proof {
        assert(fields.key_seq() =~= seq![("value")@, ("description")@]);
    }
    proof {
        reveal_strlit("value");
        reveal_strlit("description");
        reveal_strlit("footprint");
        reveal_strlit("symbol");
        reveal_strlit("datasheet");
        crate::rowmap::lemma_find_key(fields.key_seq(), ("footprint")@);
        assert(!fields.has_key(("footprint")@));
    }
    fields.insert(
        String::from_str("footprint"),
        default_field("Footprint", true, false, Some("kicad_footprint")),
    );
    proof {
        assert(fields.key_seq() =~= seq![("value")@, ("description")@, ("footprint")@]);
    }
    proof {
        reveal_strlit("value");
        reveal_strlit("description");
        reveal_strlit("footprint");
        reveal_strlit("symbol");
        reveal_strlit("datasheet");
        assert(("value")@.len() == 5);
        assert(("description")@.len() == 11);
        assert(("footprint")@.len() == 9);
        assert(("symbol")@.len() == 6);
        assert(fields.key_seq().len() == 3);
        crate::rowmap::lemma_find_key(fields.key_seq(), ("symbol")@);
        assert(!fields.has_key(("symbol")@));
    }
    fields.insert(
        String::from_str("symbol"),
        default_field("Symbol", true, false, Some("kicad_symbol")),
    );
    proof {
        assert(fields.key_seq() =~= seq![
            ("value")@,
            ("description")@,
            ("footprint")@,
            ("symbol")@,
        ]);
    }
    proof {
        reveal_strlit("value");
        reveal_strlit("description");
        reveal_strlit("footprint");
        reveal_strlit("symbol");
        reveal_strlit("datasheet");
        assert(("value")@.len() == 5);
        assert(("description")@.len() == 11);
        assert(("symbol")@.len() == 6);
        assert(("footprint")@.len() == 9);
        assert(("datasheet")@.len() == 9);
        assert(("datasheet")@[0] == 'd' && ("footprint")@[0] == 'f');
        assert(("datasheet")@ != ("footprint")@);
        assert(fields.key_seq().len() == 4);
        crate::rowmap::lemma_find_key(fields.key_seq(), ("datasheet")@);
        assert(!fields.has_key(("datasheet")@));
    }
    fields.insert(
        String::from_str("datasheet"),
        default_field("Datasheet", false, false, Some("url")),
    );
    proof {
        assert(fields.key_seq() =~= seq![
            ("value")@,
            ("description")@,
            ("footprint")@,
            ("symbol")@,
            ("datasheet")@,
        ]);
    }
    RawSchema {
        based_on: None,
        exclude_from_bom: None,
        exclude_from_board: None,
        exclude_from_sim: None,
        fields,
    }
}

/// One currently open project, for the dashboard.
pub struct ActiveProject {
    /// The display name: the registry entry's, or the directory's own name.
    pub name: String,
    /// The project directory.
    pub project_path: String,
}

/// The name of the first registry entry attached to this directory, if
/// any.
pub open spec fn registry_name_for(projects: Seq<crate::registry::ProjectEntry>, dir: Seq<char>) -> Option<
    Seq<char>,
>
    decreases projects.len(),
{
    if projects.len() == 0 {
        None
    } else if opt_view(projects[0].project_path) == Some(dir) {
        Some(projects[0].name@)
    } else {
        registry_name_for(projects.drop_first(), dir)
    }
}

/// What `registry_name_for` returns: the first attached entry's name.
pub proof fn lemma_registry_name_for(projects: Seq<crate::registry::ProjectEntry>, dir: Seq<char>)
    ensures
        registry_name_for(projects, dir) is None ==> forall|j: int|
            0 <= j < projects.len() ==> opt_view((#[trigger] projects[j]).project_path) != Some(
                dir,
            ),
        registry_name_for(projects, dir) matches Some(n) ==> exists|i: int|
            0 <= i < projects.len() && opt_view((#[trigger] projects[i]).project_path) == Some(dir)
                && projects[i].name@ == n && (forall|j: int|
                0 <= j < i ==> opt_view(projects[j].project_path) != Some(dir)),
    decreases projects.len(),
{
    if projects.len() > 0 && opt_view(projects[0].project_path) != Some(dir) {
        lemma_registry_name_for(projects.drop_first(), dir);
        assert(forall|j: int| 1 <= j < projects.len() ==> projects[j] == projects.drop_first()[j
            - 1]);
        match registry_name_for(projects.drop_first(), dir) {
            Some(n) => {
                let i = choose|i: int|
                    0 <= i < projects.drop_first().len() && opt_view(
                        (#[trigger] projects.drop_first()[i]).project_path,
                    ) == Some(dir) && projects.drop_first()[i].name@ == n && (forall|j: int|
                        0 <= j < i ==> opt_view(projects.drop_first()[j].project_path) != Some(
                            dir,
                        ));
                assert(opt_view(projects[i + 1].project_path) == Some(dir) && projects[i
                    + 1].name@ == n);
            },
            None => {},
        }
    }
}

/// The display name an open directory gets: its registry entry's name,
/// else the directory's own name, else the placeholder.
pub open spec fn active_name_of(
    projects: Seq<crate::registry::ProjectEntry>,
    dir: Seq<char>,
) -> Seq<char> {
    match registry_name_for(projects, dir) {
        Some(n) => n,
        None => if base_name_of(dir).len() > 0 {
            base_name_of(dir)
        } else {
            seq!['U', 'n', 'k', 'n', 'o', 'w', 'n']
        },
    }
}

/// The directory's own name: what follows the last separator.
pub open spec fn base_name_of(s: Seq<char>) -> Seq<char> {
    if last_sep_idx(s) < 0 {
        s
    } else {
        s.skip(last_sep_idx(s) + 1)
    }
}

/// Pair each active directory with a display name: the registry entry's
/// name where one is attached, else the directory's own name, else a
/// placeholder.
pub fn resolve_active_projects(
    active_dirs: &Vec<String>,
    persisted: &PersistedRegistry,
) -> (r: Vec<ActiveProject>)
    ensures
        r@.len() == active_dirs@.len(),
        forall|i: int|
            0 <= i < r@.len() ==> (#[trigger] r@[i]).project_path@ == active_dirs.deep_view()[i]
                && r@[i].name@ == active_name_of(persisted.projects@, active_dirs.deep_view()[i]),
{
    let mut r: Vec<ActiveProject> = Vec::new();
    let mut i: usize = 0;
    while i < active_dirs.len()
        invariant
            0 <= i <= active_dirs@.len(),
            r@.len() == i,
            forall|j: int|
                0 <= j < i ==> (#[trigger] r@[j]).project_path@ == active_dirs.deep_view()[j]
                    && r@[j].name@ == active_name_of(
                    persisted.projects@,
                    active_dirs.deep_view()[j],
                ),
        decreases active_dirs@.len() - i,
    {
        let dir = &active_dirs[i];
        let mut name: Option<String> = None;
        let mut t: usize = 0;
        while t < persisted.projects.len()
            invariant
                0 <= t <= persisted.projects@.len(),
                name is None ==> forall|j: int|
                    0 <= j < t ==> opt_view(
                        (#[trigger] persisted.projects@[j]).project_path,
                    ) != Some(dir@),
                name matches Some(n) ==> exists|j: int|
                    0 <= j < persisted.projects@.len() && opt_view(
                        (#[trigger] persisted.projects@[j]).project_path,
                    ) == Some(dir@) && persisted.projects@[j].name@ == n@ && (forall|m: int|
                        0 <= m < j ==> opt_view(persisted.projects@[m].project_path) != Some(
                            dir@,
                        )),
            decreases persisted.projects@.len() - t,
        {
            let p = &persisted.projects[t];
            let matched = match &p.project_path {
                Option::Some(pp) => *pp == *dir,
                Option::None => false,
            };
            if matched && name.is_none() {
                name = Some(p.name.clone());
            }
            t = t + 1;
        }
        proof {
            lemma_registry_name_for(persisted.projects@, dir@);
            match &name {
                Some(n) => {
                    match registry_name_for(persisted.projects@, dir@) {
                        Some(rn) => {
                            let a = choose|a: int|
                                0 <= a < persisted.projects@.len() && opt_view(
                                    (#[trigger] persisted.projects@[a]).project_path,
                                ) == Some(dir@) && persisted.projects@[a].name@ == n@ && (forall|
                                    m: int,
                                |
                                    0 <= m < a ==> opt_view(
                                        persisted.projects@[m].project_path,
                                    ) != Some(dir@));
                            let b = choose|b: int|
                                0 <= b < persisted.projects@.len() && opt_view(
                                    (#[trigger] persisted.projects@[b]).project_path,
                                ) == Some(dir@) && persisted.projects@[b].name@ == rn && (forall|
                                    m: int,
                                |
                                    0 <= m < b ==> opt_view(
                                        persisted.projects@[m].project_path,
                                    ) != Some(dir@));
                            if a < b {
                                assert(opt_view(persisted.projects@[a].project_path) != Some(
                                    dir@,
                                ));
                            } else if b < a {
                                assert(opt_view(persisted.projects@[b].project_path) != Some(
                                    dir@,
                                ));
                            }
                            assert(a == b);
                            assert(n@ == rn);
                        },
                        None => {
                            let a = choose|a: int|
                                0 <= a < persisted.projects@.len() && opt_view(
                                    (#[trigger] persisted.projects@[a]).project_path,
                                ) == Some(dir@) && persisted.projects@[a].name@ == n@;
                            assert(false);
                        },
                    }
                },
                None => {
                    match registry_name_for(persisted.projects@, dir@) {
                        Some(rn) => {
                            let b = choose|b: int|
                                0 <= b < persisted.projects@.len() && opt_view(
                                    (#[trigger] persisted.projects@[b]).project_path,
                                ) == Some(dir@) && persisted.projects@[b].name@ == rn;
                            assert(false);
                        },
                        None => {},
                    }
                },
            }
        }
        let display = match name {
            Some(n) => n,
            None => {
                let base = base_name(dir);
                if base.as_str().is_empty() {
                    let u: &str = "Unknown";
                    proof {
                        reveal_strlit("Unknown");
                        assert(u@ =~= seq!['U', 'n', 'k', 'n', 'o', 'w', 'n']);
                    }
                    String::from_str(u)
                } else {
                    base
                }
            },
        };
        proof {
            assert(active_dirs.deep_view()[i as int] == active_dirs@[i as int]@);
            assert(display@ == active_name_of(persisted.projects@, active_dirs.deep_view()[
                i as int
            ]));
        }
        r.push(ActiveProject { name: display, project_path: dir.clone() });
        i = i + 1;
    }
    r
}

/// The final path component.
fn base_name(s: &String) -> (r: String)
    ensures
        r@ == base_name_of(s@),
{
    let chars = string_to_chars(s);
    proof {
        assert(s@.take(s@.len() as int) =~= s@);
    }
    let mut i: usize = chars.len();
    loop
        invariant_except_break
            0 <= i <= chars@.len(),
            chars@ == s@,
            last_sep_idx(s@) == last_sep_idx(s@.take(i as int)),
        ensures
            chars@ == s@,
            i == 0 ==> last_sep_idx(s@) == -1,
            i > 0 ==> last_sep_idx(s@) == i - 1,
            i <= chars@.len(),
        decreases i,
    {
        if i == 0 {
            proof {
                assert(s@.take(0) =~= Seq::<char>::empty());
            }
            break ;
        }
        let c = chars[i - 1];
        proof {
            assert(s@.take(i as int).last() == s@[i - 1]);
            assert(s@.take(i as int).drop_last() =~= s@.take(i - 1));
        }
        if c == '/' || c == '\\' {
            proof {
                assert(last_sep_idx(s@.take(i as int)) == i - 1);
            }
            break ;
        }
        i = i - 1;
    }
    let start: usize = i;
    let mut out: Vec<char> = Vec::new();
    let mut j: usize = start;
    while j < chars.len()
        invariant
            start <= j <= chars@.len(),
            chars@ == s@,
            out@ == s@.subrange(start as int, j as int),
        decreases chars@.len() - j,
    {
        out.push(chars[j]);
        proof {
            assert(out@ =~= s@.subrange(start as int, j + 1));
        }
        j = j + 1;
    }
    proof {
        if start == 0 {
            assert(last_sep_idx(s@) == -1);
            assert(out@ =~= s@);
        } else {
            assert(last_sep_idx(s@) == start - 1);
            assert(out@ =~= s@.skip(last_sep_idx(s@) + 1));
        }
    }
    chars_to_string(&out)
}

} // verus!
