//! KiCad library tables and symbol libraries: the S-expression parsing
//! that pulls `(lib (name ..)(uri ..))` entries out of a table file,
//! symbol names out of a `.kicad_sym` file, and the lookup service that
//! answers whether a `Library:Entry` reference exists. Reading the files
//! is the caller's business; contents are loaded into the table on demand.
use vstd::prelude::*;

verus! {

use crate::text::{chars_to_string, lex_le, sort_strings, str_to_chars, string_to_chars};
use vstd::string::StringExecFns;

/// The result of looking up a symbol or footprint reference.
#[derive(Debug, Clone, PartialEq, Eq)]
pub enum LibLookup {
    /// The reference was found.
    Found,
    /// The library name is not in any table.
    LibraryNotFound(String),
    /// The library exists but the entry does not.
    EntryNotFound(String, String),
    /// The library could not be resolved or read.
    LibraryUnreadable(String),
}

/// One parsed library-table entry.
pub struct LibEntry {
    /// The library's nickname.
    pub name: String,
    /// Its unexpanded location.
    pub uri: String,
}

/// Find `token` in `s` at or after `start`; the earliest match wins.
pub fn find_token(s: &Vec<char>, start: usize, token: &Vec<char>) -> (r: Option<usize>)
    requires
        token@.len() >= 1,
    ensures
        r matches Some(i) ==> start <= i && i + token@.len() <= s@.len() && s@.subrange(
            i as int,
            i + token@.len(),
        ) == token@,
{
    if s.len() < token.len() {
        return None;
    }
    let slen = s.len();
    let limit = slen - token.len();
    if start > limit {
        return None;
    }
    let mut i: usize = start;
    while i <= limit
        invariant
            start <= i,
            i <= limit + 1,
            token@.len() >= 1,
            slen == s@.len(),
            s@.len() >= token@.len(),
            limit == s@.len() - token@.len(),
        decreases limit + 1 - i,
    {
        let mut k: usize = 0;
        let mut matched = true;
        while k < token.len()
            invariant
                0 <= k <= token@.len(),
                i <= limit,
                token@.len() >= 1,
                slen == s@.len(),
                s@.len() >= token@.len(),
                limit == s@.len() - token@.len(),
                i + token@.len() <= s@.len(),
                matched ==> forall|m: int| 0 <= m < k ==> s@[i + m] == token@[m],
            decreases token@.len() - k,
        {
            if s[i + k] != token[k] {
                matched = false;
            }
            k = k + 1;
        }
        if matched {
            proof {
                assert(s@.subrange(i as int, i + token@.len()) =~= token@);
            }
            return Some(i);
        }
        i = i + 1;
    }
    None
}

/// Find the closing parenthesis matching the opener at `open_idx`,
/// honoring quoted strings and backslash escapes inside them.
pub fn find_matching_paren(s: &Vec<char>, open_idx: usize) -> (r: Option<usize>)
    ensures
        r matches Some(j) ==> open_idx <= j < s@.len() && s@[j as int] == ')',
{
    if open_idx >= s.len() || !(s[open_idx] == '(') {
        return None;
    }
    let mut depth: i64 = 0;
    let mut in_quote = false;
    let mut escape = false;
    let mut i: usize = open_idx;
    while i < s.len()
        invariant
            open_idx <= i <= s@.len(),
            -1000000000 <= depth <= 1000000000,
        decreases s@.len() - i,
    {
        let b = s[i];
        if escape {
            escape = false;
        } else if b == '\\' && in_quote {
            escape = true;
        } else if b == '"' {
            in_quote = !in_quote;
        } else if b == '(' && !in_quote {
            if depth < 1000000000 {
                depth = depth + 1;
            }
        } else if b == ')' && !in_quote {
            depth = depth - 1;
            if depth == 0 {
                return Some(i);
            }
            if depth < -1000000000 {
                return None;
            }
        }
        i = i + 1;
    }
    None
}

/// Extract the value of a field like `(name "Value")` or `(name Value)`
/// from an S-expression block: the quoted form first, else the unquoted.
pub fn extract_field(block: &Vec<char>, field: &Vec<char>) -> (r: Option<String>)
    requires
        field@.len() >= 1,
{
    let mut quoted: Vec<char> = Vec::new();
    quoted.push('(');
    let mut qi: usize = 0;
    while qi < field.len()
        invariant
            0 <= qi <= field@.len(),
            quoted@.len() == qi + 1,
        decreases field@.len() - qi,
    {
        quoted.push(field[qi]);
        qi = qi + 1;
    }
    quoted.push(' ');
    let mut unquoted = quoted.clone();
    quoted.push('"');
    let blen = block.len();
    match find_token(block, 0, &quoted) {
        Some(start) => {
            proof {
                assert(start + quoted@.len() <= blen);
            }
            let vstart = start + quoted.len();
            let mut out: Vec<char> = Vec::new();
            let mut i: usize = vstart;
            while i < block.len()
                invariant
                    vstart <= i <= block@.len(),
                decreases block@.len() - i,
            {
                if block[i] == '"' {
                    return Some(chars_to_string(&out));
                }
                out.push(block[i]);
                i = i + 1;
            }
            return None;
        },
        None => {},
    }
    match find_token(block, 0, &unquoted) {
        Some(start) => {
            proof {
                assert(start + unquoted@.len() <= blen);
            }
            let vstart = start + unquoted.len();
            let mut out: Vec<char> = Vec::new();
            let mut i: usize = vstart;
            while i < block.len()
                invariant
                    vstart <= i <= block@.len(),
                decreases block@.len() - i,
            {
                if block[i] == ')' {
                    return Some(chars_to_string(&out));
                }
                out.push(block[i]);
                i = i + 1;
            }
            None
        },
        None => None,
    }
}

/// Parse a `sym-lib-table` or `fp-lib-table` file's contents: every
/// `(lib ...)` block that names both a `name` and a `uri` becomes an
/// entry, in file order.
pub fn parse_lib_table(content: &str) -> (r: Vec<LibEntry>) {
    let chars = str_to_chars(content);
    let lib_token: Vec<char> = vec!['(', 'l', 'i', 'b', ' '];
    let name_field: Vec<char> = vec!['n', 'a', 'm', 'e'];
    let uri_field: Vec<char> = vec!['u', 'r', 'i'];
    let mut entries: Vec<LibEntry> = Vec::new();
    let mut pos: usize = 0;
    while pos < chars.len()
        invariant
            0 <= pos,
            lib_token@.len() == 5,
            name_field@.len() == 4,
            uri_field@.len() == 3,
        decreases chars@.len() - pos,
    {
        match find_token(&chars, pos, &lib_token) {
            Some(idx) => {
                match find_matching_paren(&chars, idx) {
                    Some(block_end) => {
                        let clen = chars.len();
                        let mut block: Vec<char> = Vec::new();
                        let mut b: usize = idx;
                        while b <= block_end
                            invariant
                                idx <= b <= block_end + 1,
                                clen == chars@.len(),
                                block_end < chars@.len(),
                            decreases block_end + 1 - b,
                        {
                            block.push(chars[b]);
                            b = b + 1;
                        }
                        let name = extract_field(&block, &name_field);
                        let uri = extract_field(&block, &uri_field);
                        match (name, uri) {
                            (Option::Some(n), Option::Some(u)) => {
                                entries.push(LibEntry { name: n, uri: u });
                            },
                            _ => {},
                        }
                        if block_end + 1 <= pos {
                            return entries;
                        }
                        pos = block_end + 1;
                    },
                    None => {
                        if idx + 1 <= pos {
                            return entries;
                        }
                        pos = idx + 1;
                    },
                }
            },
            None => {
                return entries;
            },
        }
    }
    entries
}

/// Extract symbol names from `.kicad_sym` file contents: the quoted name
/// of every depth-one `(symbol "...")` block, any `Library:` prefix
/// stripped.
pub fn extract_symbol_names(content: &str) -> (r: Vec<String>) {
    let chars = str_to_chars(content);
    let token: Vec<char> = vec!['(', 's', 'y', 'm', 'b', 'o', 'l', ' ', '"'];
    let mut names: Vec<String> = Vec::new();
    let mut depth: i64 = 0;
    let mut in_quote = false;
    let mut escape = false;
    let mut i: usize = 0;
    while i < chars.len()
        invariant
            0 <= i <= chars@.len(),
            -1000000000 <= depth <= 1000000000,
            token@.len() == 9,
        decreases chars@.len() - i,
    {
        let b = chars[i];
        if escape {
            escape = false;
            i = i + 1;
        } else if b == '\\' && in_quote {
            escape = true;
            i = i + 1;
        } else if b == '"' {
            in_quote = !in_quote;
            i = i + 1;
        } else if in_quote {
            i = i + 1;
        } else if b == '(' {
            let mut is_symbol = false;
            if depth == 1 && chars.len() >= token.len() && i <= chars.len() - token.len() {
                let clen = chars.len();
                let mut k: usize = 0;
                let mut matched = true;
                while k < token.len()
                    invariant
                        0 <= k <= token@.len(),
                        clen == chars@.len(),
                        i + token@.len() <= chars@.len(),
                    decreases token@.len() - k,
                {
                    if chars[i + k] != token[k] {
                        matched = false;
                    }
                    k = k + 1;
                }
                is_symbol = matched;
            }
            if is_symbol {
                let name_start = i + token.len();
                let mut raw: Vec<char> = Vec::new();
                let mut j: usize = name_start;
                let mut closed = false;
                while j < chars.len() && !closed
                    invariant
                        name_start <= j <= chars@.len(),
                        closed ==> j < chars@.len(),
                    decreases chars@.len() - j + (if closed { 0int } else { 1int }),
                {
                    if chars[j] == '"' {
                        closed = true;
                    } else {
                        raw.push(chars[j]);
                        j = j + 1;
                    }
                }
                if closed {
                    let mut split: Option<usize> = None;
                    let mut c: usize = 0;
                    while c < raw.len()
                        invariant
                            0 <= c <= raw@.len(),
                            split matches Some(x) ==> x < raw@.len(),
                        decreases raw@.len() - c,
                    {
                        if raw[c] == ':' && split.is_none() {
                            split = Some(c);
                        }
                        c = c + 1;
                    }
                    let name = match split {
                        Some(x) => {
                            let mut tail: Vec<char> = Vec::new();
                            let mut t: usize = x + 1;
                            while t < raw.len()
                                invariant
                                    x + 1 <= t <= raw@.len() || (raw@.len() < x + 1 && t == x + 1),
                                decreases raw@.len() - t,
                            {
                                tail.push(raw[t]);
                                t = t + 1;
                            }
                            chars_to_string(&tail)
                        },
                        None => chars_to_string(&raw),
                    };
                    names.push(name);
                    if j + 1 <= i {
                        return names;
                    }
                    depth = if depth < 1000000000 {
                        depth + 1
                    } else {
                        depth
                    };
                    i = j + 1;
                } else {
                    i = chars.len();
                }
            } else {
                depth = if depth < 1000000000 {
                    depth + 1
                } else {
                    depth
                };
                i = i + 1;
            }
        } else if b == ')' {
            depth = if depth > -1000000000 {
                depth - 1
            } else {
                depth
            };
            i = i + 1;
        } else {
            i = i + 1;
        }
    }
    names
}

/// Expand `${VAR}` patterns in a location string, looking names up in the
/// given variable table; an unknown name is left as written. A string
/// without `$` comes back unchanged.
pub fn resolve_env_vars(uri: &str, vars: &Vec<(String, String)>) -> (r: String)
    ensures
        (forall|i: int| 0 <= i < uri@.len() ==> uri@[i] != '$') ==> r@ == uri@,
{
    let chars = str_to_chars(uri);
    let mut out: Vec<char> = Vec::new();
    let mut i: usize = 0;
    while i < chars.len()
        invariant
            0 <= i <= chars@.len(),
            chars@ == uri@,
            (forall|m: int| 0 <= m < uri@.len() ==> uri@[m] != '$') ==> out@ == uri@.take(i as int),
        decreases chars@.len() - i,
    {
        let c = chars[i];
        if c == '$' && i + 1 < chars.len() && chars[i + 1] == '{' {
            let mut var: Vec<char> = Vec::new();
            let mut j: usize = i + 2;
            let mut closed = false;
            while j < chars.len() && !closed
                invariant
                    i + 2 <= j <= chars@.len(),
                    closed ==> j < chars@.len(),
                decreases chars@.len() - j + (if closed { 0int } else { 1int }),
            {
                if chars[j] == '}' {
                    closed = true;
                } else {
                    var.push(chars[j]);
                    j = j + 1;
                }
            }
            if closed {
                let var_name = chars_to_string(&var);
                let mut found: Option<usize> = None;
                let mut v: usize = 0;
                while v < vars.len()
                    invariant
                        0 <= v <= vars@.len(),
                        found matches Some(f) ==> f < vars@.len(),
                    decreases vars@.len() - v,
                {
                    if vars[v].0 == var_name && found.is_none() {
                        found = Some(v);
                    }
                    v = v + 1;
                }
                match found {
                    Some(f) => {
                        let mut rep = string_to_chars(&vars[f].1);
                        out.append(&mut rep);
                    },
                    None => {
                        out.push('$');
                        out.push('{');
                        let mut t: usize = 0;
                        while t < var.len()
                            invariant
                                0 <= t <= var@.len(),
                            decreases var@.len() - t,
                        {
                            out.push(var[t]);
                            t = t + 1;
                        }
                        out.push('}');
                    },
                }
                if j + 1 <= i {
                    return chars_to_string(&out);
                }
                i = j + 1;
            } else {
                out.push(c);
                i = i + 1;
            }
        } else {
            out.push(c);
            proof {
                if forall|m: int| 0 <= m < uri@.len() ==> uri@[m] != '$' {
                    assert(out@ =~= uri@.take(i + 1));
                }
            }
            i = i + 1;
        }
    }
    proof {
        if forall|m: int| 0 <= m < uri@.len() ==> uri@[m] != '$' {
            assert(uri@.take(uri@.len() as int) =~= uri@);
        }
    }
    chars_to_string(&out)
}

/// What is known of one library's contents.
pub enum LibContent {
    /// Resolved to a readable location, not read yet.
    Pending(String),
    /// Read: its entry names.
    Loaded(Vec<String>),
    /// Could not be resolved or read.
    Unreadable,
}

/// One library in a table.
pub struct LibSlot {
    /// The library's nickname.
    pub name: String,
    /// What is known of its contents.
    pub content: LibContent,
}

/// The symbol and footprint library tables, for validation lookups.
pub struct KicadLibraries {
    /// Symbol libraries, first table entry per nickname.
    pub symbol_libs: Vec<LibSlot>,
    /// Footprint libraries, first table entry per nickname.
    pub footprint_libs: Vec<LibSlot>,
}

/// The first table entry carrying `name`, or `-1`.
pub open spec fn first_entry(entries: Seq<(Seq<char>, Seq<char>, bool)>, name: Seq<char>) -> int
    decreases entries.len(),
{
    if entries.len() == 0 {
        -1
    } else if entries[0].0 == name {
        0
    } else {
        let r = first_entry(entries.drop_first(), name);
        if r < 0 {
            -1
        } else {
            1 + r
        }
    }
}

/// What `first_entry` returns: the least index carrying the name, or
/// `-1` when none does.
pub proof fn lemma_first_entry(entries: Seq<(Seq<char>, Seq<char>, bool)>, name: Seq<char>)
    ensures
        first_entry(entries, name) < 0 ==> forall|i: int|
            0 <= i < entries.len() ==> (#[trigger] entries[i]).0 != name,
        first_entry(entries, name) >= 0 ==> first_entry(entries, name) < entries.len()
            && entries[first_entry(entries, name)].0 == name && forall|i: int|
            0 <= i < first_entry(entries, name) ==> (#[trigger] entries[i]).0 != name,
    decreases entries.len(),
{
    if entries.len() > 0 && entries[0].0 != name {
        lemma_first_entry(entries.drop_first(), name);
        assert(forall|i: int| 1 <= i < entries.len() ==> entries[i] == entries.drop_first()[i - 1]);
    }
}

/// The slot one table entry yields: pending at its location when that
/// exists, unreadable otherwise.
pub open spec fn slot_of_entry(e: (Seq<char>, Seq<char>, bool), s: LibSlot) -> bool {
    &&& s.name@ == e.0
    &&& if e.2 {
        s.content matches LibContent::Pending(p) && p@ == e.1
    } else {
        s.content is Unreadable
    }
}

/// The slot stands for its nickname's first table entry.
pub open spec fn slot_bound(entries: Seq<(Seq<char>, Seq<char>, bool)>, s: LibSlot) -> bool {
    let e = first_entry(entries, s.name@);
    0 <= e < entries.len() && slot_of_entry(entries[e], s)
}

/// Some slot carries the name.
pub open spec fn name_in_slots(slots: Seq<LibSlot>, name: Seq<char>) -> bool {
    exists|s: int| 0 <= s < slots.len() && (#[trigger] slots[s]).name@ == name
}

/// Build one table: the first entry per nickname wins; an entry whose
/// location exists is pending, anything else unreadable.
fn build_lib_map(entries: Vec<(String, String, bool)>) -> (r: Vec<LibSlot>)
    ensures
        forall|a: int, b: int| 0 <= a < b < r@.len() ==> (#[trigger] r@[a]).name@ != (
        #[trigger] r@[b]).name@,
        forall|s: int| 0 <= s < r@.len() ==> slot_bound(entries.deep_view(), #[trigger] r@[s]),
        forall|e: int|
            0 <= e < entries.deep_view().len() ==> name_in_slots(
                r@,
                (#[trigger] entries.deep_view()[e]).0,
            ),
{
    let ghost ed = entries.deep_view();
    let mut slots: Vec<LibSlot> = Vec::new();
    let mut i: usize = 0;
    let n = entries.len();
    while i < n
        invariant
            0 <= i <= n,
            n == entries@.len(),
            ed == entries.deep_view(),
            ed.len() == n,
            forall|a: int, b: int|
                0 <= a < b < slots@.len() ==> (#[trigger] slots@[a]).name@ != (
                #[trigger] slots@[b]).name@,
            forall|s: int| 0 <= s < slots@.len() ==> slot_bound(ed, #[trigger] slots@[s]),
            forall|e: int| 0 <= e < i ==> name_in_slots(slots@, (#[trigger] ed[e]).0),
        decreases n - i,
    {
        let name = entries[i].0.clone();
        proof {
            assert(ed[i as int] == (entries@[i as int].0@, entries@[i as int].1@, entries@[
                i as int
            ].2));
        }
        let mut seen = false;
        let mut t: usize = 0;
        while t < slots.len()
            invariant
                0 <= t <= slots@.len(),
                !seen ==> forall|s: int| 0 <= s < t ==> (#[trigger] slots@[s]).name@ != name@,
                seen ==> name_in_slots(slots@, name@),
            decreases slots@.len() - t,
        {
            if slots[t].name == name {
                seen = true;
                proof {
                    assert(slots@[t as int].name@ == name@);
                }
            }
            t = t + 1;
        }
        if !seen {
            let content = if entries[i].2 {
                LibContent::Pending(entries[i].1.clone())
            } else {
                LibContent::Unreadable
            };
            let ghost slots_before = slots@;
            slots.push(LibSlot { name, content });
            proof {
                assert forall|a: int, b: int|
                    0 <= a < b < slots@.len() implies (#[trigger] slots@[a]).name@ != (
                    #[trigger] slots@[b]).name@ by {
                    if b == slots@.len() - 1 {
                        assert(slots@[a] == slots_before[a]);
                    }
                }
                let newest = slots@[slots@.len() - 1];
                lemma_first_entry(ed, name@);
                if first_entry(ed, name@) != i {
                    if first_entry(ed, name@) < 0 {
                        assert(ed[i as int].0 != name@);
                        assert(false);
                    } else if first_entry(ed, name@) < i {
                        let f = first_entry(ed, name@);
                        assert(name_in_slots(slots_before, ed[f].0));
                        let w = choose|w: int|
                            0 <= w < slots_before.len() && (#[trigger] slots_before[w]).name@
                                == ed[f].0;
                        assert(false);
                    } else {
                        assert(ed[i as int].0 != name@);
                        assert(false);
                    }
                }
                assert(slot_of_entry(ed[i as int], newest));
                assert(slot_bound(ed, newest));
                assert forall|s: int| 0 <= s < slots@.len() implies slot_bound(
                    ed,
                    #[trigger] slots@[s],
                ) by {
                    if s < slots_before.len() {
                        assert(slots@[s] == slots_before[s]);
                    }
                }
                assert forall|e: int| 0 <= e < i + 1 implies name_in_slots(
                    slots@,
                    (#[trigger] ed[e]).0,
                ) by {
                    if e < i {
                        let w = choose|w: int|
                            0 <= w < slots_before.len() && (#[trigger] slots_before[w]).name@
                                == ed[e].0;
                        assert(slots@[w].name@ == ed[e].0);
                    } else {
                        assert(slots@[slots@.len() - 1].name@ == ed[e].0);
                    }
                }
            }
        } else {
            proof {
                assert(name_in_slots(slots@, ed[i as int].0));
            }
        }
        i = i + 1;
    }
    slots
}

/// Position of the first colon, or `-1`.
pub open spec fn first_colon(s: Seq<char>) -> int
    decreases s.len(),
{
    if s.len() == 0 {
        -1
    } else if s[0] == ':' {
        0
    } else {
        let r = first_colon(s.drop_first());
        if r < 0 {
            -1
        } else {
            1 + r
        }
    }
}

/// The library half of a `Library:Entry` reference.
pub open spec fn lib_of(s: Seq<char>) -> Seq<char> {
    s.take(first_colon(s))
}

/// The entry half of a `Library:Entry` reference.
pub open spec fn entry_of(s: Seq<char>) -> Seq<char> {
    s.skip(first_colon(s) + 1)
}

/// The first colon is a colon, and nothing earlier is.
proof fn lemma_first_colon(s: Seq<char>)
    ensures
        first_colon(s) < 0 ==> forall|i: int| 0 <= i < s.len() ==> s[i] != ':',
        first_colon(s) >= 0 ==> first_colon(s) < s.len() && s[first_colon(s)] == ':' && forall|
            i: int,
        | 0 <= i < first_colon(s) ==> s[i] != ':',
    decreases s.len(),
{
    if s.len() > 0 && s[0] != ':' {
        lemma_first_colon(s.drop_first());
        assert(forall|i: int| 1 <= i < s.len() ==> s[i] == s.drop_first()[i - 1]);
    }
}

/// Split a `Library:Entry` reference at its first colon./// Split a `Library:Entry` reference at its first colon.
fn split_reference(reference: &str) -> (r: Option<(String, String)>)
    ensures
        r is Some <==> first_colon(reference@) >= 0,
        r matches Some(p) ==> p.0@ == lib_of(reference@) && p.1@ == entry_of(reference@),
{
    let chars = str_to_chars(reference);
    proof {
        lemma_first_colon(reference@);
    }
    let mut i: usize = 0;
    while i < chars.len()
        invariant
            0 <= i <= chars@.len(),
            chars@ == reference@,
            forall|j: int| 0 <= j < i ==> reference@[j] != ':',
        decreases chars@.len() - i,
    {
        if chars[i] == ':' {
            proof {
                lemma_first_colon(reference@);
                if first_colon(reference@) != i {
                    if first_colon(reference@) < 0 {
                        assert(reference@[i as int] != ':');
                    } else if first_colon(reference@) < i {
                        assert(reference@[first_colon(reference@)] != ':');
                    } else {
                        assert(reference@[i as int] != ':');
                    }
                }
                assert(first_colon(reference@) == i);
            }
            let mut lib: Vec<char> = Vec::new();
            let mut a: usize = 0;
            while a < i
                invariant
                    0 <= a <= i,
                    i < chars@.len(),
                    chars@ == reference@,
                    lib@ == reference@.take(a as int),
                decreases i - a,
            {
                lib.push(chars[a]);
                proof {
                    assert(lib@ =~= reference@.take(a + 1));
                }
                a = a + 1;
            }
            let mut entry: Vec<char> = Vec::new();
            let mut b: usize = i + 1;
            while b < chars.len()
                invariant
                    i + 1 <= b <= chars@.len(),
                    chars@ == reference@,
                    entry@ == reference@.subrange(i + 1, b as int),
                decreases chars@.len() - b,
            {
                entry.push(chars[b]);
                proof {
                    assert(entry@ =~= reference@.subrange(i + 1, b + 1));
                }
                b = b + 1;
            }
            proof {
                assert(entry@ =~= reference@.skip(i + 1));
            }
            return Some((chars_to_string(&lib), chars_to_string(&entry)));
        }
        i = i + 1;
    }
    proof {
        lemma_first_colon(reference@);
        if first_colon(reference@) >= 0 {
            assert(reference@[first_colon(reference@)] == ':');
        }
    }
    None
}

/// Position of the first table slot with this nickname, or `-1`.
pub open spec fn find_slot(slots: Seq<LibSlot>, name: Seq<char>) -> int
    decreases slots.len(),
{
    if slots.len() == 0 {
        -1
    } else if slots[0].name@ == name {
        0
    } else {
        let r = find_slot(slots.drop_first(), name);
        if r < 0 {
            -1
        } else {
            1 + r
        }
    }
}

/// What `find_slot` returns: a valid first position, or `-1` when absent.
pub proof fn lemma_find_slot(slots: Seq<LibSlot>, name: Seq<char>)
    ensures
        find_slot(slots, name) < 0 ==> forall|i: int|
            0 <= i < slots.len() ==> (#[trigger] slots[i]).name@ != name,
        find_slot(slots, name) >= 0 ==> find_slot(slots, name) < slots.len() && slots[find_slot(
            slots,
            name,
        )].name@ == name && forall|i: int|
            0 <= i < find_slot(slots, name) ==> (#[trigger] slots[i]).name@ != name,
    decreases slots.len(),
{
    if slots.len() > 0 && slots[0].name@ != name {
        lemma_find_slot(slots.drop_first(), name);
        assert(forall|i: int| 1 <= i < slots.len() ==> slots[i] == slots.drop_first()[i - 1]);
    }
}

/// What looking a reference up in a table must answer, given its slots.
pub open spec fn lookup_post(slots: Seq<LibSlot>, reference: Seq<char>, r: LibLookup) -> bool {
    if first_colon(reference) < 0 {
        r matches LibLookup::LibraryNotFound(n) && n@ == reference
    } else {
        let lib = lib_of(reference);
        let ent = entry_of(reference);
        let f = find_slot(slots, lib);
        if f < 0 {
            r matches LibLookup::LibraryNotFound(n) && n@ == lib
        } else {
            match slots[f].content {
                LibContent::Loaded(es) => {
                    if es.deep_view().contains(ent) {
                        r is Found
                    } else {
                        r matches LibLookup::EntryNotFound(l, e) && l@ == lib && e@ == ent
                    }
                },
                LibContent::Pending(p) => (r matches LibLookup::LibraryUnreadable(l) && l@ == lib),
                LibContent::Unreadable => (r matches LibLookup::LibraryUnreadable(l) && l@ == lib),
            }
        }
    }
}

/// Look a reference up in one table: malformed references and unknown
/// nicknames are not found; a pending library must be read first, and
/// counts as unreadable until then.
fn lookup_in(slots: &Vec<LibSlot>, reference: &str) -> (r: LibLookup)
    ensures
        lookup_post(slots@, reference@, r),
{
    let (lib_name, entry_name) = match split_reference(reference) {
        Some(p) => p,
        None => {
            return LibLookup::LibraryNotFound(String::from_str(reference));
        },
    };
    proof {
        lemma_find_slot(slots@, lib_name@);
    }
    let mut i: usize = 0;
    while i < slots.len()
        invariant
            0 <= i <= slots@.len(),
            lib_name@ == lib_of(reference@),
            entry_name@ == entry_of(reference@),
            first_colon(reference@) >= 0,
            forall|j: int| 0 <= j < i ==> (#[trigger] slots@[j]).name@ != lib_name@,
        decreases slots@.len() - i,
    {
        if slots[i].name == lib_name {
            proof {
                lemma_find_slot(slots@, lib_name@);
                if find_slot(slots@, lib_name@) != i {
                    if find_slot(slots@, lib_name@) < 0 {
                        assert(slots@[i as int].name@ != lib_name@);
                    } else if find_slot(slots@, lib_name@) < i {
                        assert(slots@[find_slot(slots@, lib_name@)].name@ != lib_name@);
                    } else {
                        assert(slots@[i as int].name@ != lib_name@);
                    }
                }
                assert(find_slot(slots@, lib_name@) == i);
            }
            return match &slots[i].content {
                LibContent::Loaded(entries) => {
                    if crate::store::contains_string(entries, &entry_name) {
                        LibLookup::Found
                    } else {
                        LibLookup::EntryNotFound(lib_name, entry_name)
                    }
                },
                LibContent::Pending(_) => LibLookup::LibraryUnreadable(lib_name),
                LibContent::Unreadable => LibLookup::LibraryUnreadable(lib_name),
            };
        }
        i = i + 1;
    }
    proof {
        lemma_find_slot(slots@, lib_name@);
        if find_slot(slots@, lib_name@) >= 0 {
            assert(slots@[find_slot(slots@, lib_name@)].name@ == lib_name@);
        }
    }
    LibLookup::LibraryNotFound(lib_name)
}

/// Whether the reference names a library whose slot still waits to be
/// read.
pub open spec fn pending_post(
    slots: Seq<LibSlot>,
    reference: Seq<char>,
    r: Option<(String, String)>,
) -> bool {
    let f = find_slot(slots, lib_of(reference));
    &&& (r is Some <==> first_colon(reference) >= 0 && f >= 0 && slots[f].content is Pending)
    &&& (r matches Some(p) ==> p.0@ == lib_of(reference) && p.1@
        == slots[f].content->Pending_0@)
}

/// The location of a library still waiting to be read, if the reference
/// needs one.
fn pending_path_in(slots: &Vec<LibSlot>, reference: &str) -> (r: Option<(String, String)>)
    ensures
        pending_post(slots@, reference@, r),
{
    let (lib_name, _) = match split_reference(reference) {
        Some(p) => p,
        None => {
            return None;
        },
    };
    let mut i: usize = 0;
    while i < slots.len()
        invariant
            0 <= i <= slots@.len(),
            lib_name@ == lib_of(reference@),
            first_colon(reference@) >= 0,
            forall|m: int| 0 <= m < i ==> (#[trigger] slots@[m]).name@ != lib_name@,
        decreases slots@.len() - i,
    {
        if slots[i].name == lib_name {
            proof {
                lemma_find_slot(slots@, lib_name@);
                let f = find_slot(slots@, lib_name@);
                if f < 0 {
                    assert(slots@[i as int].name@ != lib_name@);
                }
                if f < i {
                    assert(slots@[f].name@ != lib_name@);
                }
                if f > i {
                    assert(slots@[i as int].name@ != lib_name@);
                }
                assert(f == i);
            }
            return match &slots[i].content {
                LibContent::Pending(path) => Some((lib_name, path.clone())),
                _ => None,
            };
        }
        i = i + 1;
    }
    proof {
        lemma_find_slot(slots@, lib_name@);
        let f = find_slot(slots@, lib_name@);
        if f >= 0 {
            assert(slots@[f].name@ != lib_name@);
        }
    }
    None
}

/// What recording a read leaves behind: the named slot is loaded with the
/// produced entries, or unreadable when the read failed; every other slot
/// and an unknown name change nothing.
pub open spec fn provide_post(
    pre: Seq<LibSlot>,
    post: Seq<LibSlot>,
    name: Seq<char>,
    contents: Option<Vec<String>>,
) -> bool {
    let f = find_slot(pre, name);
    &&& post.len() == pre.len()
    &&& (f < 0 ==> post == pre)
    &&& (f >= 0 ==> {
        &&& forall|m: int| 0 <= m < pre.len() && m != f ==> #[trigger] post[m] == pre[m]
        &&& post[f].name@ == name
        &&& (contents matches Some(es) ==> post[f].content matches LibContent::Loaded(v) && v
            == es)
        &&& (contents is None ==> post[f].content is Unreadable)
    })
}

/// Record what reading a library produced.
fn provide_in(slots: &mut Vec<LibSlot>, lib_name: &String, contents: Option<Vec<String>>)
    ensures
        provide_post(old(slots)@, final(slots)@, lib_name@, contents),
{
    let mut i: usize = 0;
    while i < slots.len()
        invariant
            0 <= i <= slots@.len(),
            slots@ == old(slots)@,
            forall|m: int| 0 <= m < i ==> (#[trigger] slots@[m]).name@ != lib_name@,
        decreases slots@.len() - i,
    {
        if slots[i].name == *lib_name {
            proof {
                lemma_find_slot(slots@, lib_name@);
                let f = find_slot(slots@, lib_name@);
                if f < 0 {
                    assert(slots@[i as int].name@ != lib_name@);
                }
                if f < i {
                    assert(slots@[f].name@ != lib_name@);
                }
                if f > i {
                    assert(slots@[i as int].name@ != lib_name@);
                }
                assert(f == i);
            }
            let name = slots[i].name.clone();
            match contents {
                Some(entries) => {
                    slots.set(i, LibSlot { name, content: LibContent::Loaded(entries) });
                },
                None => {
                    slots.set(i, LibSlot { name, content: LibContent::Unreadable });
                },
            }
            return ;
        }
        i = i + 1;
    }
    proof {
        lemma_find_slot(slots@, lib_name@);
        let f = find_slot(slots@, lib_name@);
        if f >= 0 {
            assert(slots@[f].name@ != lib_name@);
        }
        assert(slots@ =~= old(slots)@);
    }
}

/// A name sequence that holds exactly one table's nicknames contains a
/// value iff some slot carries it.
proof fn lemma_names_contains(dv: Seq<Seq<char>>, slots: Seq<LibSlot>)
    requires
        dv.len() == slots.len(),
        forall|i: int| 0 <= i < dv.len() ==> #[trigger] dv[i] == slots[i].name@,
    ensures
        forall|x: Seq<char>|
            #[trigger] dv.contains(x) <==> exists|s: int|
                0 <= s < slots.len() && (#[trigger] slots[s]).name@ == x,
{
    assert forall|x: Seq<char>| #[trigger] dv.contains(x) implies exists|s: int|
        0 <= s < slots.len() && (#[trigger] slots[s]).name@ == x by {
        let k = choose|k: int| 0 <= k < dv.len() && #[trigger] dv[k] == x;
        assert(slots[k].name@ == x);
    }
    assert forall|x: Seq<char>|
        exists|s: int| 0 <= s < slots.len() && (#[trigger] slots[s]).name@ == x implies #[trigger]
    dv.contains(x) by {
        let k = choose|k: int| 0 <= k < slots.len() && (#[trigger] slots[k]).name@ == x;
        assert(dv[k] == x);
    }
}

/// The nicknames of one table, in table order.
fn names_of(slots: &Vec<LibSlot>) -> (r: Vec<String>)
    ensures
        r@.len() == slots@.len(),
        forall|i: int| 0 <= i < r@.len() ==> (#[trigger] r@[i])@ == slots@[i].name@,
{
    let mut r: Vec<String> = Vec::new();
    let mut i: usize = 0;
    while i < slots.len()
        invariant
            0 <= i <= slots@.len(),
            r@.len() == i,
            forall|j: int| 0 <= j < i ==> (#[trigger] r@[j])@ == slots@[j].name@,
        decreases slots@.len() - i,
    {
        r.push(slots[i].name.clone());
        i = i + 1;
    }
    r
}

impl KicadLibraries {
    /// Build the lookup tables from resolved entries: nickname, resolved
    /// location, and whether the location exists. Each table registers one
    /// slot per distinct nickname, the first entry winning, pending at its
    /// location exactly when that exists; contents are read later, on
    /// demand.
    pub fn load(
        symbol_entries: Vec<(String, String, bool)>,
        footprint_entries: Vec<(String, String, bool)>,
    ) -> (r: KicadLibraries)
        ensures
            forall|a: int, b: int|
                0 <= a < b < r.symbol_libs@.len() ==> (#[trigger] r.symbol_libs@[a]).name@ != (
                #[trigger] r.symbol_libs@[b]).name@,
            forall|s: int|
                0 <= s < r.symbol_libs@.len() ==> slot_bound(
                    symbol_entries.deep_view(),
                    #[trigger] r.symbol_libs@[s],
                ),
            forall|e: int|
                0 <= e < symbol_entries.deep_view().len() ==> name_in_slots(
                    r.symbol_libs@,
                    (#[trigger] symbol_entries.deep_view()[e]).0,
                ),
            forall|a: int, b: int|
                0 <= a < b < r.footprint_libs@.len() ==> (
                #[trigger] r.footprint_libs@[a]).name@ != (#[trigger] r.footprint_libs@[b]).name@,
            forall|s: int|
                0 <= s < r.footprint_libs@.len() ==> slot_bound(
                    footprint_entries.deep_view(),
                    #[trigger] r.footprint_libs@[s],
                ),
            forall|e: int|
                0 <= e < footprint_entries.deep_view().len() ==> name_in_slots(
                    r.footprint_libs@,
                    (#[trigger] footprint_entries.deep_view()[e]).0,
                ),
    {
        KicadLibraries {
            symbol_libs: build_lib_map(symbol_entries),
            footprint_libs: build_lib_map(footprint_entries),
        }
    }

    /// Whether a symbol reference like `Device:R` exists.
    pub fn has_symbol(&self, reference: &str) -> (r: LibLookup)
        ensures
            lookup_post(self.symbol_libs@, reference@, r),
    {
        lookup_in(&self.symbol_libs, reference)
    }

    /// Whether a footprint reference like `Resistor_SMD:R_0603` exists.
    pub fn has_footprint(&self, reference: &str) -> (r: LibLookup)
        ensures
            lookup_post(self.footprint_libs@, reference@, r),
    {
        lookup_in(&self.footprint_libs, reference)
    }

    /// The symbol library the reference needs read, if one is pending.
    pub fn pending_symbol_lib(&self, reference: &str) -> (r: Option<(String, String)>)
        ensures
            pending_post(self.symbol_libs@, reference@, r),
    {
        pending_path_in(&self.symbol_libs, reference)
    }

    /// The footprint library the reference needs read, if one is pending.
    pub fn pending_footprint_lib(&self, reference: &str) -> (r: Option<(String, String)>)
        ensures
            pending_post(self.footprint_libs@, reference@, r),
    {
        pending_path_in(&self.footprint_libs, reference)
    }

    /// Record what reading a symbol library produced.
    pub fn provide_symbol_lib(&mut self, lib_name: &String, contents: Option<Vec<String>>)
        ensures
            provide_post(old(self).symbol_libs@, final(self).symbol_libs@, lib_name@, contents),
            final(self).footprint_libs == old(self).footprint_libs,
    {
        provide_in(&mut self.symbol_libs, lib_name, contents);
    }

    /// Record what reading a footprint library produced.
    pub fn provide_footprint_lib(&mut self, lib_name: &String, contents: Option<Vec<String>>)
        ensures
            provide_post(old(self).footprint_libs@, final(self).footprint_libs@, lib_name@, contents),
            final(self).symbol_libs == old(self).symbol_libs,
    {
        provide_in(&mut self.footprint_libs, lib_name, contents);
    }

    /// The symbol library nicknames, sorted ascending: exactly the
    /// table's names, in lexicographic order.
    pub fn list_symbol_libraries(&self) -> (r: Vec<String>)
        ensures
            r@.len() == self.symbol_libs@.len(),
            forall|p: int, q: int|
                0 <= p < q < r@.len() ==> lex_le(
                    #[trigger] r.deep_view()[p],
                    #[trigger] r.deep_view()[q],
                ),
            forall|x: Seq<char>|
                #[trigger] r.deep_view().contains(x) <==> exists|s: int|
                    0 <= s < self.symbol_libs@.len() && (#[trigger] self.symbol_libs@[s]).name@
                        == x,
    {
        let names = names_of(&self.symbol_libs);
        let r = sort_strings(&names);
        proof {
            assert forall|i: int| 0 <= i < names.deep_view().len() implies #[trigger] names
                .deep_view()[i] == self.symbol_libs@[i].name@ by {
                assert(names.deep_view()[i] == names@[i]@);
            }
            lemma_names_contains(names.deep_view(), self.symbol_libs@);
        }
        r
    }

    /// The footprint library nicknames, sorted ascending: exactly the
    /// table's names, in lexicographic order.
    pub fn list_footprint_libraries(&self) -> (r: Vec<String>)
        ensures
            r@.len() == self.footprint_libs@.len(),
            forall|p: int, q: int|
                0 <= p < q < r@.len() ==> lex_le(
                    #[trigger] r.deep_view()[p],
                    #[trigger] r.deep_view()[q],
                ),
            forall|x: Seq<char>|
                #[trigger] r.deep_view().contains(x) <==> exists|s: int|
                    0 <= s < self.footprint_libs@.len() && (
                    #[trigger] self.footprint_libs@[s]).name@ == x,
    {
        let names = names_of(&self.footprint_libs);
        let r = sort_strings(&names);
        proof {
            assert forall|i: int| 0 <= i < names.deep_view().len() implies #[trigger] names
                .deep_view()[i] == self.footprint_libs@[i].name@ by {
                assert(names.deep_view()[i] == names@[i]@);
            }
            lemma_names_contains(names.deep_view(), self.footprint_libs@);
        }
        r
    }

    /// The entries of a loaded symbol library.
    pub fn list_symbols(&self, lib_name: &String) -> (r: Option<Vec<String>>)
        ensures
            r is Some <==> (find_slot(self.symbol_libs@, lib_name@) >= 0 && self.symbol_libs@[
                find_slot(self.symbol_libs@, lib_name@)
            ].content is Loaded),
            r matches Some(v) ==> v.deep_view() == self.symbol_libs@[find_slot(
                self.symbol_libs@,
                lib_name@,
            )].content->Loaded_0.deep_view(),
    {
        list_in(&self.symbol_libs, lib_name)
    }

    /// The entries of a loaded footprint library.
    pub fn list_footprints(&self, lib_name: &String) -> (r: Option<Vec<String>>)
        ensures
            r is Some <==> (find_slot(self.footprint_libs@, lib_name@) >= 0
                && self.footprint_libs@[find_slot(self.footprint_libs@, lib_name@)].content
                is Loaded),
            r matches Some(v) ==> v.deep_view() == self.footprint_libs@[find_slot(
                self.footprint_libs@,
                lib_name@,
            )].content->Loaded_0.deep_view(),
    {
        list_in(&self.footprint_libs, lib_name)
    }
}

/// The entries of a loaded library, by nickname: present exactly when
/// the first slot of that nickname has been read, and then exactly its
/// entry names.
fn list_in(slots: &Vec<LibSlot>, lib_name: &String) -> (r: Option<Vec<String>>)
    ensures
        r is Some <==> (find_slot(slots@, lib_name@) >= 0 && slots@[find_slot(
            slots@,
            lib_name@,
        )].content is Loaded),
        r matches Some(v) ==> v.deep_view() == slots@[find_slot(
            slots@,
            lib_name@,
        )].content->Loaded_0.deep_view(),
{
    proof {
        lemma_find_slot(slots@, lib_name@);
    }
    let mut i: usize = 0;
    while i < slots.len()
        invariant
            0 <= i <= slots@.len(),
            forall|j: int| 0 <= j < i ==> (#[trigger] slots@[j]).name@ != lib_name@,
        decreases slots@.len() - i,
    {
        if slots[i].name == *lib_name {
            proof {
                lemma_find_slot(slots@, lib_name@);
                if find_slot(slots@, lib_name@) != i {
                    if find_slot(slots@, lib_name@) < 0 {
                        assert(slots@[i as int].name@ != lib_name@);
                    } else if find_slot(slots@, lib_name@) < i {
                        assert(slots@[find_slot(slots@, lib_name@)].name@ != lib_name@);
                    } else {
                        assert(slots@[i as int].name@ != lib_name@);
                    }
                }
                assert(find_slot(slots@, lib_name@) == i);
            }
            return match &slots[i].content {
                LibContent::Loaded(entries) => {
                    let mut out: Vec<String> = Vec::new();
                    let mut t: usize = 0;
                    while t < entries.len()
                        invariant
                            0 <= t <= entries@.len(),
                            out.deep_view() =~= entries.deep_view().take(t as int),
                        decreases entries@.len() - t,
                    {
                        let ghost before = out.deep_view();
                        out.push(entries[t].clone());
                        proof {
                            assert(out.deep_view() =~~= before.push(entries@[t as int]@));
                            assert(entries.deep_view()[t as int] == entries@[t as int]@);
                            assert(out.deep_view() =~= entries.deep_view().take(t + 1));
                        }
                        t = t + 1;
                    }
                    proof {
                        assert(out.deep_view() =~= entries.deep_view());
                    }
                    Some(out)
                },
                _ => None,
            };
        }
        i = i + 1;
    }
    proof {
        lemma_find_slot(slots@, lib_name@);
        if find_slot(slots@, lib_name@) >= 0 {
            assert(slots@[find_slot(slots@, lib_name@)].name@ == lib_name@);
        }
    }
    None
}

} // verus!
