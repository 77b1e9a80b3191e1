//! The response mapper: how a request for categories, a category's parts,
//! or one part's detail turns a loaded library into wire responses —
//! 1-based decimal category ids, the `mpn`-else-`value` naming rule, the
//! `True`/`False` exclusion flags, and the visibility policy for fields.
use vstd::prelude::*;

verus! {

use crate::library::LoadedLibrary;
use crate::models::{Category, FieldValue, PartDetail, PartSummary, RootResponse, fields_view};
use crate::rowmap::CsvRow;
use crate::schema::{ResolvedSchema, opt_view};
use crate::store::id_key;
use crate::text::{dec_digits, dec_literal_digits, dec_value, ends_with, is_usize_literal,
    lower_chars, lower_char, parse_usize, str_to_chars, string_to_chars, chars_to_string,
    u64_to_dec_string, to_ascii_lower};
use vstd::string::StringExecFns;

/// Why a request is refused.
#[derive(Debug)]
pub enum ApiError {
    /// No such category or part.
    NotFound,
    /// No usable bearer token.
    Unauthorized,
}

/// The `symbol` column name.
pub open spec fn sym_key() -> Seq<char> {
    seq!['s', 'y', 'm', 'b', 'o', 'l']
}

/// The `mpn` column name.
pub open spec fn mpn_key() -> Seq<char> {
    seq!['m', 'p', 'n']
}

/// The `value` column name.
pub open spec fn value_key() -> Seq<char> {
    seq!['v', 'a', 'l', 'u', 'e']
}

/// The `description` column name.
pub open spec fn description_key() -> Seq<char> {
    seq!['d', 'e', 's', 'c', 'r', 'i', 'p', 't', 'i', 'o', 'n']
}

/// The `reference` column name.
pub open spec fn reference_key() -> Seq<char> {
    seq!['r', 'e', 'f', 'e', 'r', 'e', 'n', 'c', 'e']
}

/// The `exclude_from_bom` column name.
pub open spec fn bom_key() -> Seq<char> {
    seq!['e', 'x', 'c', 'l', 'u', 'd', 'e', '_', 'f', 'r', 'o', 'm', '_', 'b', 'o', 'm']
}

/// The `exclude_from_board` column name.
pub open spec fn board_key() -> Seq<char> {
    seq!['e', 'x', 'c', 'l', 'u', 'd', 'e', '_', 'f', 'r', 'o', 'm', '_', 'b', 'o', 'a', 'r', 'd']
}

/// The `exclude_from_sim` column name.
pub open spec fn sim_key() -> Seq<char> {
    seq!['e', 'x', 'c', 'l', 'u', 'd', 'e', '_', 'f', 'r', 'o', 'm', '_', 's', 'i', 'm']
}

/// The literal `True`.
pub open spec fn true_str() -> Seq<char> {
    seq!['T', 'r', 'u', 'e']
}

/// The literal `False`.
pub open spec fn false_str() -> Seq<char> {
    seq!['F', 'a', 'l', 's', 'e']
}

/// The columns that feed top-level response fields rather than the
/// `fields` mapping.
pub open spec fn is_top_level(k: Seq<char>) -> bool {
    k == id_key() || k == sym_key() || k == bom_key() || k == board_key() || k == sim_key()
}

/// The row's value under `k`, or empty.
pub open spec fn cell_or_empty(row: CsvRow, k: Seq<char>) -> Seq<char> {
    if row.has_key(k) {
        row.spec_get(k)
    } else {
        Seq::empty()
    }
}

/// A part's name: the `mpn` value when present and non-empty, else the
/// `value` value, else empty.
pub open spec fn part_name(row: CsvRow) -> Seq<char> {
    if row.has_key(mpn_key()) && row.spec_get(mpn_key()).len() > 0 {
        row.spec_get(mpn_key())
    } else {
        cell_or_empty(row, value_key())
    }
}

/// A truthy CSV boolean: `true`, `1` or `yes`, ASCII case-insensitive.
pub open spec fn is_truthy(v: Seq<char>) -> bool {
    lower_chars(v) == seq!['t', 'r', 'u', 'e'] || v == seq!['1'] || lower_chars(v) == seq![
        'y',
        'e',
        's',
    ]
}

/// A boolean in the EDA tool's format.
pub open spec fn kicad_bool(b: bool) -> Seq<char> {
    if b {
        true_str()
    } else {
        false_str()
    }
}

/// One exclusion flag: a non-empty CSV cell is normalized, otherwise the
/// resolved schema's boolean is rendered.
pub open spec fn flag_str(row: CsvRow, k: Seq<char>, schema_flag: bool) -> Seq<char> {
    if row.has_key(k) && row.spec_get(k).len() > 0 {
        kicad_bool(is_truthy(row.spec_get(k)))
    } else {
        kicad_bool(schema_flag)
    }
}

/// A column's display name: the schema's, or the column name itself.
pub open spec fn display_name_of(schema: ResolvedSchema, k: Seq<char>) -> Seq<char> {
    if schema.fields.has_key(k) {
        schema.fields.spec_get(k).0
    } else {
        k
    }
}

/// A column's visibility marker: `value` and `reference` are visible by
/// default, everything else is hidden unless the schema says visible.
pub open spec fn visible_of(schema: ResolvedSchema, k: Seq<char>) -> Option<Seq<char>> {
    if k == value_key() || k == reference_key() {
        None
    } else if schema.fields.has_key(k) && schema.fields.spec_get(k).2 {
        None
    } else {
        Some(false_str())
    }
}

/// The `.json` suffix callers may append to a path parameter.
pub open spec fn json_suffix() -> Seq<char> {
    seq!['.', 'j', 's', 'o', 'n']
}

/// A path parameter with an optional `.json` suffix stripped.
pub open spec fn stripped(s: Seq<char>) -> Seq<char> {
    if ends_with(s, json_suffix()) {
        s.take(s.len() - 5)
    } else {
        s
    }
}

/// Whether a category path parameter addresses a table: a decimal number
/// between 1 and the table count.
pub open spec fn category_ok(s: Seq<char>, n: nat) -> bool {
    &&& is_usize_literal(stripped(s))
    &&& 1 <= dec_value(dec_literal_digits(stripped(s)))
    &&& dec_value(dec_literal_digits(stripped(s))) <= n
}

/// Entry `e` of the field list carries the display name, value and
/// visibility of some non-top-level column among the first `j`.
pub open spec fn entry_ok(
    fields: Seq<(String, FieldValue)>,
    row: CsvRow,
    schema: ResolvedSchema,
    j: int,
    e: int,
) -> bool {
    exists|m: int|
        0 <= m < j && !(#[trigger] is_top_level(row.key_seq()[m])) && fields_view(fields)[e] == (
            display_name_of(schema, row.key_seq()[m]),
            row.val_seq()[m],
            visible_of(schema, row.key_seq()[m]),
        )
}

/// Column `m` appears among the field entries under its display name.
pub open spec fn col_covered(
    fields: Seq<(String, FieldValue)>,
    row: CsvRow,
    schema: ResolvedSchema,
    m: int,
) -> bool {
    exists|e: int|
        0 <= e < fields_view(fields).len() && (#[trigger] fields_view(fields)[e]).0
            == display_name_of(schema, row.key_seq()[m])
}

/// The first non-top-level column whose display name is `name`, or the
/// column count when there is none, scanning from position `m`.
pub open spec fn first_col_from(row: CsvRow, schema: ResolvedSchema, name: Seq<char>, m: int) -> int
    decreases row.key_seq().len() - m,
{
    if m < 0 || m >= row.key_seq().len() {
        row.key_seq().len() as int
    } else if !is_top_level(row.key_seq()[m]) && display_name_of(schema, row.key_seq()[m])
        == name {
        m
    } else {
        first_col_from(row, schema, name, m + 1)
    }
}

/// The first non-top-level column whose display name is `name`.
pub open spec fn first_col(row: CsvRow, schema: ResolvedSchema, name: Seq<char>) -> int {
    first_col_from(row, schema, name, 0)
}

/// What `first_col_from` returns: the least qualifying position at or
/// after `m`, or the column count.
pub proof fn lemma_first_col_from(row: CsvRow, schema: ResolvedSchema, name: Seq<char>, m: int)
    requires
        0 <= m <= row.key_seq().len(),
    ensures
        m <= first_col_from(row, schema, name, m) <= row.key_seq().len(),
        first_col_from(row, schema, name, m) < row.key_seq().len() ==> {
            let f = first_col_from(row, schema, name, m);
            &&& !is_top_level(row.key_seq()[f])
            &&& display_name_of(schema, row.key_seq()[f]) == name
            &&& forall|x: int|
                m <= x < f ==> !(!is_top_level(row.key_seq()[x]) && display_name_of(
                    schema,
                    row.key_seq()[x],
                ) == name)
        },
        first_col_from(row, schema, name, m) == row.key_seq().len() ==> forall|x: int|
            m <= x < row.key_seq().len() ==> !(!is_top_level(row.key_seq()[x])
                && display_name_of(schema, row.key_seq()[x]) == name),
    decreases row.key_seq().len() - m,
{
    if m < row.key_seq().len() {
        if !(!is_top_level(row.key_seq()[m]) && display_name_of(schema, row.key_seq()[m])
            == name) {
            lemma_first_col_from(row, schema, name, m + 1);
        }
    }
}

/// The field entries stand in the order of their display names' first
/// columns: the list follows the row's column order.
pub open spec fn fields_ordered(
    fields: Seq<(String, FieldValue)>,
    row: CsvRow,
    schema: ResolvedSchema,
) -> bool {
    forall|e1: int, e2: int|
        0 <= e1 < e2 < fields_view(fields).len() ==> first_col(
            row,
            schema,
            (#[trigger] fields_view(fields)[e1]).0,
        ) < first_col(row, schema, (#[trigger] fields_view(fields)[e2]).0)
}

/// Every non-top-level column among the first `j` appears in the field
/// entries under its display name.
pub open spec fn fields_complete(
    fields: Seq<(String, FieldValue)>,
    row: CsvRow,
    schema: ResolvedSchema,
    j: int,
) -> bool {
    forall|m: int|
        0 <= m < j && !is_top_level(row.key_seq()[m]) ==> #[trigger] col_covered(
            fields,
            row,
            schema,
            m,
        )
}

/// Every field entry is the display name, value and visibility of some
/// non-top-level column among the first `j`.
pub open spec fn fields_sound(
    fields: Seq<(String, FieldValue)>,
    row: CsvRow,
    schema: ResolvedSchema,
    j: int,
) -> bool {
    forall|e: int|
        0 <= e < fields_view(fields).len() ==> #[trigger] entry_ok(fields, row, schema, j, e)
}

/// Field entries valid for the first `j` columns stay valid when column
/// `j` is a top-level one.
proof fn lemma_fields_skip(
    fields: Seq<(String, FieldValue)>,
    row: CsvRow,
    schema: ResolvedSchema,
    j: int,
)
    requires
        0 <= j < row.key_seq().len(),
        fields_sound(fields, row, schema, j),
        fields_complete(fields, row, schema, j),
        is_top_level(row.key_seq()[j]),
    ensures
        fields_sound(fields, row, schema, j + 1),
        fields_complete(fields, row, schema, j + 1),
{
    assert forall|e: int| 0 <= e < fields_view(fields).len() implies #[trigger] entry_ok(
        fields,
        row,
        schema,
        j + 1,
        e,
    ) by {
        assert(entry_ok(fields, row, schema, j, e));
        let m0 = choose|m0: int|
            0 <= m0 < j && !(#[trigger] is_top_level(row.key_seq()[m0])) && fields_view(fields)[e]
                == (
                display_name_of(schema, row.key_seq()[m0]),
                row.val_seq()[m0],
                visible_of(schema, row.key_seq()[m0]),
            );
        assert(0 <= m0 < j + 1);
    }
    assert forall|m: int|
        0 <= m < j + 1 && !is_top_level(row.key_seq()[m]) implies #[trigger] col_covered(
        fields,
        row,
        schema,
        m,
    ) by {
        assert(0 <= m < j);
    }
}

/// Adding column `j`'s entry extends validity from the first `j` columns
/// to the first `j + 1`.
proof fn lemma_fields_grow(
    before: Seq<(String, FieldValue)>,
    after: Seq<(String, FieldValue)>,
    row: CsvRow,
    schema: ResolvedSchema,
    j: int,
)
    requires
        0 <= j < row.key_seq().len(),
        !is_top_level(row.key_seq()[j]),
        fields_sound(before, row, schema, j),
        fields_complete(before, row, schema, j),
        fields_view(after).len() >= fields_view(before).len(),
        exists|e: int|
            0 <= e < fields_view(after).len() && #[trigger] fields_view(after)[e] == (
                display_name_of(schema, row.key_seq()[j]),
                row.val_seq()[j],
                visible_of(schema, row.key_seq()[j]),
            ),
        forall|e: int|
            0 <= e < fields_view(after).len() ==> (#[trigger] fields_view(after)[e]) == (
                display_name_of(schema, row.key_seq()[j]),
                row.val_seq()[j],
                visible_of(schema, row.key_seq()[j]),
            ) || (e < fields_view(before).len() && fields_view(after)[e] == fields_view(before)[e]),
        forall|e: int|
            0 <= e < fields_view(before).len() ==> (#[trigger] fields_view(after)[e]).0
                == fields_view(before)[e].0,
    ensures
        fields_sound(after, row, schema, j + 1),
        fields_complete(after, row, schema, j + 1),
{
    assert forall|e: int| 0 <= e < fields_view(after).len() implies #[trigger] entry_ok(
        after,
        row,
        schema,
        j + 1,
        e,
    ) by {
        if fields_view(after)[e] == (
            display_name_of(schema, row.key_seq()[j]),
            row.val_seq()[j],
            visible_of(schema, row.key_seq()[j]),
        ) {
            assert(0 <= j < j + 1 && !is_top_level(row.key_seq()[j]));
        } else {
            assert(e < fields_view(before).len() && fields_view(after)[e] == fields_view(
                before,
            )[e]);
            assert(entry_ok(before, row, schema, j, e));
            let m0 = choose|m0: int|
                0 <= m0 < j && !(#[trigger] is_top_level(row.key_seq()[m0])) && fields_view(
                    before,
                )[e] == (
                    display_name_of(schema, row.key_seq()[m0]),
                    row.val_seq()[m0],
                    visible_of(schema, row.key_seq()[m0]),
                );
            assert(0 <= m0 < j + 1);
        }
    }
    assert forall|m: int|
        0 <= m < j + 1 && !is_top_level(row.key_seq()[m]) implies #[trigger] col_covered(
        after,
        row,
        schema,
        m,
    ) by {
        if m < j {
            assert(col_covered(before, row, schema, m));
            let e2 = choose|e2: int|
                0 <= e2 < fields_view(before).len() && (#[trigger] fields_view(before)[e2]).0
                    == display_name_of(schema, row.key_seq()[m]);
            assert((#[trigger] fields_view(after)[e2]).0 == fields_view(before)[e2].0);
        } else {
            let e = choose|e: int|
                0 <= e < fields_view(after).len() && #[trigger] fields_view(after)[e] == (
                    display_name_of(schema, row.key_seq()[j]),
                    row.val_seq()[j],
                    visible_of(schema, row.key_seq()[j]),
                );
            assert(fields_view(after)[e].0 == display_name_of(schema, row.key_seq()[m]));
        }
    }
}

/// What a part detail says about its row and schema.
pub open spec fn detail_matches(d: PartDetail, row: CsvRow, schema: ResolvedSchema) -> bool {
    &&& d.id@ == cell_or_empty(row, id_key())
    &&& d.name@ == part_name(row)
    &&& d.symbol_id_str@ == cell_or_empty(row, sym_key())
    &&& d.exclude_from_bom@ == flag_str(row, bom_key(), schema.exclude_from_bom)
    &&& d.exclude_from_board@ == flag_str(row, board_key(), schema.exclude_from_board)
    &&& d.exclude_from_sim@ == flag_str(row, sim_key(), schema.exclude_from_sim)
    &&& fields_complete(d.fields@, row, schema, row.key_seq().len() as int)
    &&& fields_sound(d.fields@, row, schema, row.key_seq().len() as int)
    &&& fields_once(d.fields@)
    &&& fields_ordered(d.fields@, row, schema)
}

/// No display name appears twice in the field entries: each column's
/// display name carries exactly one entry.
pub open spec fn fields_once(fields: Seq<(String, FieldValue)>) -> bool {
    forall|e1: int, e2: int|
        0 <= e1 < e2 < fields_view(fields).len() ==> (#[trigger] fields_view(fields)[e1]).0 != (
        #[trigger] fields_view(fields)[e2]).0
}

/// The handshake response: two empty strings under the expected keys.
pub fn get_root() -> (r: RootResponse)
    ensures
        r.categories@ == Seq::<char>::empty(),
        r.parts@ == Seq::<char>::empty(),
{
    RootResponse { categories: String::new(), parts: String::new() }
}

/// The category listing: one entry per table, in order, with the 1-based
/// index as a decimal string and an empty description.
pub fn get_categories(library: &LoadedLibrary) -> (r: Vec<Category>)
    ensures
        r@.len() == library.component_types@.len(),
        forall|i: int|
            0 <= i < r@.len() ==> (#[trigger] r@[i]).id@ == dec_digits((i + 1) as nat) && r@[i].name@
                == library.component_types@[i].name@ && r@[i].description@ == Seq::<char>::empty(),
{
    let mut r: Vec<Category> = Vec::new();
    let mut i: usize = 0;
    while i < library.component_types.len()
        invariant
            0 <= i <= library.component_types@.len(),
            r@.len() == i,
            forall|j: int|
                0 <= j < i ==> (#[trigger] r@[j]).id@ == dec_digits((j + 1) as nat) && r@[j].name@
                    == library.component_types@[j].name@ && r@[j].description@ == Seq::<
                    char,
                >::empty(),
        decreases library.component_types@.len() - i,
    {
        let id = u64_to_dec_string((i as u64) + 1);
        r.push(
            Category {
                id,
                name: library.component_types[i].name.clone(),
                description: String::new(),
            },
        );
        i = i + 1;
    }
    r
}

/// Strip an optional `.json` suffix.
fn strip_json(s: &Vec<char>) -> (r: Vec<char>)
    ensures
        r@ == stripped(s@),
{
    let suffix: Vec<char> = vec!['.', 'j', 's', 'o', 'n'];
    proof {
        assert(suffix@ =~= json_suffix());
    }
    if crate::text::chars_end_with(s, &suffix) {
        let mut r: Vec<char> = Vec::new();
        let n = s.len() - 5;
        let mut i: usize = 0;
        while i < n
            invariant
                0 <= i <= n,
                n == s@.len() - 5,
                r@ == s@.take(i as int),
            decreases n - i,
        {
            r.push(s[i]);
            proof {
                assert(r@ =~= s@.take(i + 1));
            }
            i = i + 1;
        }
        r
    } else {
        let mut r: Vec<char> = Vec::new();
        let mut i: usize = 0;
        while i < s.len()
            invariant
                0 <= i <= s@.len(),
                r@ == s@.take(i as int),
            decreases s@.len() - i,
        {
            r.push(s[i]);
            proof {
                assert(r@ =~= s@.take(i + 1));
            }
            i = i + 1;
        }
        proof {
            assert(s@.take(s@.len() as int) =~= s@);
        }
        r
    }
}

/// Render a boolean in the EDA tool's format.
pub fn bool_to_kicad(b: bool) -> (r: String)
    ensures
        r@ == kicad_bool(b),
{
    if b {
        let lit: &str = "True";
        proof {
            reveal_strlit("True");
            assert(lit@ =~= true_str());
        }
        String::from_str(lit)
    } else {
        let lit: &str = "False";
        proof {
            reveal_strlit("False");
            assert(lit@ =~= false_str());
        }
        String::from_str(lit)
    }
}

/// Normalize a CSV boolean: `true`, `1` or `yes` (any ASCII case) is
/// `True`, everything else `False`.
pub fn bool_str(s: &String) -> (r: String)
    ensures
        r@ == kicad_bool(is_truthy(s@)),
{
    let chars = string_to_chars(s);
    let mut lowered: Vec<char> = Vec::new();
    let mut i: usize = 0;
    while i < chars.len()
        invariant
            0 <= i <= chars@.len(),
            chars@ == s@,
            lowered@ == lower_chars(s@.take(i as int)),
        decreases chars@.len() - i,
    {
        lowered.push(to_ascii_lower(chars[i]));
        proof {
            assert(lowered@ =~= lower_chars(s@.take(i + 1)));
        }
        i = i + 1;
    }
    proof {
        assert(s@.take(s@.len() as int) =~= s@);
    }
    let lowered_s = chars_to_string(&lowered);
    let t: &str = "true";
    let y: &str = "yes";
    let one: &str = "1";
    proof {
        reveal_strlit("true");
        reveal_strlit("yes");
        reveal_strlit("1");
        assert(t@ =~= seq!['t', 'r', 'u', 'e']);
        assert(y@ =~= seq!['y', 'e', 's']);
        assert(one@ =~= seq!['1']);
    }
    let truthy = lowered_s == String::from_str(t) || *s == String::from_str(one) || lowered_s
        == String::from_str(y);
    bool_to_kicad(truthy)
}

/// One exclusion flag for a row.
pub fn exclude_flag(row: &CsvRow, field: &String, schema_default: bool) -> (r: String)
    requires
        row.wf(),
    ensures
        r@ == flag_str(*row, field@, schema_default),
{
    match row.get(field) {
        Some(v) => {
            if v.as_str().is_empty() {
                bool_to_kicad(schema_default)
            } else {
                bool_str(v)
            }
        },
        None => bool_to_kicad(schema_default),
    }
}

/// A column's display name for the response.
pub fn display_name_for(column: &String, schema: &ResolvedSchema) -> (r: String)
    requires
        schema.fields.wf(),
    ensures
        r@ == display_name_of(*schema, column@),
{
    match schema.fields.get(column) {
        Some(fd) => fd.display_name.clone(),
        None => column.clone(),
    }
}

/// A column's visibility marker for the response.
pub fn visible_for(column: &String, schema: &ResolvedSchema) -> (r: Option<String>)
    requires
        schema.fields.wf(),
    ensures
        opt_view(r) == visible_of(*schema, column@),
{
    let value_lit: &str = "value";
    let reference_lit: &str = "reference";
    proof {
        reveal_strlit("value");
        reveal_strlit("reference");
        assert(value_lit@ =~= value_key());
        assert(reference_lit@ =~= reference_key());
    }
    if *column == String::from_str(value_lit) || *column == String::from_str(reference_lit) {
        return None;
    }
    match schema.fields.get(column) {
        Some(fd) => {
            if fd.visible {
                None
            } else {
                Some(bool_to_kicad(false))
            }
        },
        None => Some(bool_to_kicad(false)),
    }
}

/// Add one field entry under its display name: an existing name keeps its
/// position and takes the new value; a fresh name is appended.
fn push_field_entry(fields: &mut Vec<(String, FieldValue)>, name: String, fv: FieldValue)
    ensures
        fields_view(final(fields)@).len() >= fields_view(old(fields)@).len(),
        exists|e: int|
            0 <= e < fields_view(final(fields)@).len() && #[trigger] fields_view(final(fields)@)[e]
                == (name@, fv.value@, opt_view(fv.visible)),
        forall|e: int|
            0 <= e < fields_view(final(fields)@).len() ==> (#[trigger] fields_view(
                final(fields)@,
            )[e]) == (name@, fv.value@, opt_view(fv.visible)) || (e < fields_view(
                old(fields)@,
            ).len() && fields_view(final(fields)@)[e] == fields_view(old(fields)@)[e]),
        forall|e: int|
            0 <= e < fields_view(old(fields)@).len() ==> (#[trigger] fields_view(
                final(fields)@,
            )[e]).0 == fields_view(old(fields)@)[e].0,
        fields_once(old(fields)@) ==> fields_once(final(fields)@),
        (exists|e: int|
            0 <= e < fields_view(old(fields)@).len() && (#[trigger] fields_view(old(fields)@)[
                e
            ]).0 == name@) ==> fields_view(final(fields)@).len() == fields_view(
            old(fields)@,
        ).len(),
        !(exists|e: int|
            0 <= e < fields_view(old(fields)@).len() && (#[trigger] fields_view(old(fields)@)[
                e
            ]).0 == name@) ==> fields_view(final(fields)@).len() == fields_view(
            old(fields)@,
        ).len() + 1,
{
    let mut i: usize = 0;
    while i < fields.len()
        invariant
            0 <= i <= fields@.len(),
            fields@ == old(fields)@,
            forall|j: int| 0 <= j < i ==> fields@[j].0@ != name@,
        decreases fields@.len() - i,
    {
        if fields[i].0 == name {
            proof {
                assert(fields@[i as int].0@ == name@);
            }
            let kept_name = fields[i].0.clone();
            fields.set(i, (kept_name, fv));
            proof {
                assert((#[trigger] fields_view(old(fields)@)[i as int]).0 == name@);
                assert(fields_view(fields@)[i as int] == (name@, fv.value@, opt_view(fv.visible)));
                assert(forall|e: int|
                    0 <= e < fields_view(fields@).len() && e != i ==> #[trigger] fields_view(
                        fields@,
                    )[e] == fields_view(old(fields)@)[e]);
                assert((#[trigger] fields_view(fields@)[i as int]).0 == fields_view(
                    old(fields)@,
                )[i as int].0);
            }
            return ;
        }
        i = i + 1;
    }
    fields.push((name, fv));
    proof {
        assert(fields_view(fields@)[fields@.len() - 1] == (name@, fv.value@, opt_view(fv.visible)));
        assert(forall|e: int|
            0 <= e < fields_view(old(fields)@).len() ==> #[trigger] fields_view(fields@)[e]
                == fields_view(old(fields)@)[e]);
        if exists|e: int|
            0 <= e < fields_view(old(fields)@).len() && (#[trigger] fields_view(old(fields)@)[
                e
            ]).0 == name@ {
            let e = choose|e: int|
                0 <= e < fields_view(old(fields)@).len() && (#[trigger] fields_view(
                    old(fields)@,
                )[e]).0 == name@;
            assert(old(fields)@[e].0@ != name@);
            assert(false);
        }
    }
}

/// Build the `fields` mapping for one row: every column that is not a
/// top-level one, keyed by display name, with the visibility policy
/// applied; a repeated display name keeps its first position and last
/// value.
#[verifier::rlimit(100)]
fn build_fields(row: &CsvRow, schema: &ResolvedSchema) -> (fields: Vec<(String, FieldValue)>)
    requires
        row.wf(),
        schema.fields.wf(),
    ensures
        fields_complete(fields@, *row, *schema, row.key_seq().len() as int),
        fields_sound(fields@, *row, *schema, row.key_seq().len() as int),
        fields_once(fields@),
        fields_ordered(fields@, *row, *schema),
{
    let idk = crate::store::id_string();
    let sym_lit: &str = "symbol";
    let bom_lit: &str = "exclude_from_bom";
    let board_lit: &str = "exclude_from_board";
    let sim_lit: &str = "exclude_from_sim";
    proof {
        reveal_strlit("symbol");
        reveal_strlit("exclude_from_bom");
        reveal_strlit("exclude_from_board");
        reveal_strlit("exclude_from_sim");
        assert(sym_lit@ =~= sym_key());
        assert(bom_lit@ =~= bom_key());
        assert(board_lit@ =~= board_key());
        assert(sim_lit@ =~= sim_key());
    }
    let sym_s = String::from_str(sym_lit);
    let bom_s = String::from_str(bom_lit);
    let board_s = String::from_str(board_lit);
    let sim_s = String::from_str(sim_lit);
    let mut fields: Vec<(String, FieldValue)> = Vec::new();
    let mut j: usize = 0;
    while j < row.len()
        invariant
            0 <= j <= row.key_seq().len(),
            row.wf(),
            schema.fields.wf(),
            idk@ == id_key(),
            sym_s@ == sym_key(),
            bom_s@ == bom_key(),
            board_s@ == board_key(),
            sim_s@ == sim_key(),
            fields_complete(fields@, *row, *schema, j as int),
            fields_sound(fields@, *row, *schema, j as int),
            fields_once(fields@),
            fields_ordered(fields@, *row, *schema),
            forall|e: int|
                0 <= e < fields_view(fields@).len() ==> 0 <= first_col(
                    *row,
                    *schema,
                    (#[trigger] fields_view(fields@)[e]).0,
                ) < j,
        decreases row.key_seq().len() - j,
    {
        let k = row.key_at(j).clone();
        let top = k == idk || k == sym_s || k == bom_s || k == board_s || k == sim_s;
        proof {
            assert(top == is_top_level(row.key_seq()[j as int]));
        }
        if top {
            proof {
                lemma_fields_skip(fields@, *row, *schema, j as int);
            }
        } else {
            let v = row.val_at(j).clone();
            let dn = display_name_for(&k, schema);
            let vis = visible_for(&k, schema);
            let ghost fields_before = fields@;
            let ghost dnv = dn@;
            let ghost vv = v@;
            let ghost visv = opt_view(vis);
            proof {
                assert(dnv == display_name_of(*schema, row.key_seq()[j as int]));
                assert(vv == row.val_seq()[j as int]);
                assert(visv == visible_of(*schema, row.key_seq()[j as int]));
            }
            push_field_entry(&mut fields, dn, FieldValue { value: v, visible: vis });
            proof {
                lemma_fields_grow(fields_before, fields@, *row, *schema, j as int);
                if exists|e: int|
                    0 <= e < fields_view(fields_before).len() && (#[trigger] fields_view(
                        fields_before,
                    )[e]).0 == dnv {
                    // An existing display name was overwritten in place:
                    // names and their first columns are unchanged.
                    assert(fields_view(fields@).len() == fields_view(fields_before).len());
                    assert forall|e1: int, e2: int|
                        0 <= e1 < e2 < fields_view(fields@).len() implies first_col(
                        *row,
                        *schema,
                        (#[trigger] fields_view(fields@)[e1]).0,
                    ) < first_col(*row, *schema, (#[trigger] fields_view(fields@)[e2]).0) by {
                        assert(fields_view(fields@)[e1].0 == fields_view(fields_before)[e1].0);
                        assert(fields_view(fields@)[e2].0 == fields_view(fields_before)[e2].0);
                    }
                    assert forall|e: int|
                        0 <= e < fields_view(fields@).len() implies 0 <= first_col(
                        *row,
                        *schema,
                        (#[trigger] fields_view(fields@)[e]).0,
                    ) < j + 1 by {
                        assert(fields_view(fields@)[e].0 == fields_view(fields_before)[e].0);
                    }
                } else {
                    // A fresh display name was appended: its first column
                    // is this one, past every earlier entry's.
                    assert(fields_view(fields@).len() == fields_view(fields_before).len() + 1);
                    lemma_first_col_from(*row, *schema, dnv, 0);
                    let f = first_col(*row, *schema, dnv);
                    assert(!is_top_level(row.key_seq()[j as int]) && display_name_of(
                        *schema,
                        row.key_seq()[j as int],
                    ) == dnv);
                    assert(f <= j);
                    if f < j {
                        assert(col_covered(fields_before, *row, *schema, f));
                        let e2 = choose|e2: int|
                            0 <= e2 < fields_view(fields_before).len() && (#[trigger] fields_view(
                                fields_before,
                            )[e2]).0 == display_name_of(*schema, row.key_seq()[f]);
                        assert(false);
                    }
                    assert(f == j);
                    assert forall|e: int|
                        0 <= e < fields_view(fields@).len() implies 0 <= first_col(
                        *row,
                        *schema,
                        (#[trigger] fields_view(fields@)[e]).0,
                    ) < j + 1 by {
                        if e < fields_view(fields_before).len() {
                            assert(fields_view(fields@)[e].0 == fields_view(fields_before)[e].0);
                        } else {
                            assert(fields_view(fields@)[e].0 == dnv);
                        }
                    }
                    assert forall|e1: int, e2: int|
                        0 <= e1 < e2 < fields_view(fields@).len() implies first_col(
                        *row,
                        *schema,
                        (#[trigger] fields_view(fields@)[e1]).0,
                    ) < first_col(*row, *schema, (#[trigger] fields_view(fields@)[e2]).0) by {
                        if e2 < fields_view(fields_before).len() {
                            assert(fields_view(fields@)[e1].0 == fields_view(fields_before)[
                                e1
                            ].0);
                            assert(fields_view(fields@)[e2].0 == fields_view(fields_before)[
                                e2
                            ].0);
                        } else {
                            assert(fields_view(fields@)[e2].0 == dnv);
                            assert(fields_view(fields@)[e1].0 == fields_view(fields_before)[
                                e1
                            ].0);
                            assert(first_col(*row, *schema, fields_view(fields@)[e1].0) < j);
                        }
                    }
                }
            }
        }
        j = j + 1;
    }
    fields
}

/// Build the detail response for one row under its table's schema.
pub fn build_part_detail(row: &CsvRow, schema: &ResolvedSchema) -> (d: PartDetail)
    requires
        row.wf(),
        schema.fields.wf(),
    ensures
        detail_matches(d, *row, *schema),
{
    let idk = crate::store::id_string();
    let sym_lit: &str = "symbol";
    let mpn_lit: &str = "mpn";
    let value_lit: &str = "value";
    let bom_lit: &str = "exclude_from_bom";
    let board_lit: &str = "exclude_from_board";
    let sim_lit: &str = "exclude_from_sim";
    proof {
        reveal_strlit("symbol");
        reveal_strlit("mpn");
        reveal_strlit("value");
        reveal_strlit("exclude_from_bom");
        reveal_strlit("exclude_from_board");
        reveal_strlit("exclude_from_sim");
        assert(sym_lit@ =~= sym_key());
        assert(mpn_lit@ =~= mpn_key());
        assert(value_lit@ =~= value_key());
        assert(bom_lit@ =~= bom_key());
        assert(board_lit@ =~= board_key());
        assert(sim_lit@ =~= sim_key());
    }
    let sym_s = String::from_str(sym_lit);
    let mpn_s = String::from_str(mpn_lit);
    let value_s = String::from_str(value_lit);
    let bom_s = String::from_str(bom_lit);
    let board_s = String::from_str(board_lit);
    let sim_s = String::from_str(sim_lit);
    let id = row.get_or_empty(&idk);
    let name = match row.get(&mpn_s) {
        Some(v) => {
            if v.as_str().is_empty() {
                row.get_or_empty(&value_s)
            } else {
                v.clone()
            }
        },
        None => row.get_or_empty(&value_s),
    };
    let symbol_id_str = row.get_or_empty(&sym_s);
    let exclude_from_bom = exclude_flag(row, &bom_s, schema.exclude_from_bom);
    let exclude_from_board = exclude_flag(row, &board_s, schema.exclude_from_board);
    let exclude_from_sim = exclude_flag(row, &sim_s, schema.exclude_from_sim);
    let fields = build_fields(row, schema);
    PartDetail {
        id,
        name,
        symbol_id_str,
        exclude_from_bom,
        exclude_from_board,
        exclude_from_sim,
        fields,
    }
}

/// The summary of one row.
fn summarize_row(row: &CsvRow) -> (s: PartSummary)
    requires
        row.wf(),
    ensures
        s.id@ == cell_or_empty(*row, id_key()),
        s.name@ == part_name(*row),
        s.description@ == cell_or_empty(*row, description_key()),
{
    let idk = crate::store::id_string();
    let mpn_lit: &str = "mpn";
    let value_lit: &str = "value";
    let description_lit: &str = "description";
    proof {
        reveal_strlit("mpn");
        reveal_strlit("value");
        reveal_strlit("description");
        assert(mpn_lit@ =~= mpn_key());
        assert(value_lit@ =~= value_key());
        assert(description_lit@ =~= description_key());
    }
    let mpn_s = String::from_str(mpn_lit);
    let value_s = String::from_str(value_lit);
    let description_s = String::from_str(description_lit);
    let id = row.get_or_empty(&idk);
    let name = match row.get(&mpn_s) {
        Some(v) => {
            if v.as_str().is_empty() {
                row.get_or_empty(&value_s)
            } else {
                v.clone()
            }
        },
        None => row.get_or_empty(&value_s),
    };
    let description = row.get_or_empty(&description_s);
    PartSummary { id, name, description }
}

/// The part summaries of one category. The identifier is 1-based; `0`, a
/// number past the table count, or anything non-numeric is refused.
pub fn get_parts_by_category(library: &LoadedLibrary, category_id: &str) -> (r: Result<
    Vec<PartSummary>,
    ApiError,
>)
    requires
        forall|t: int|
            0 <= t < library.component_types@.len() ==> crate::library::table_ok(
                (#[trigger] library.component_types@[t]).components@,
            ),
    ensures
        r is Ok <==> category_ok(category_id@, library.component_types@.len() as nat),
        r matches Err(e) ==> e is NotFound,
        r matches Ok(list) ==> {
            let rows =
                library.component_types@[dec_value(dec_literal_digits(stripped(category_id@)))
                - 1].components@;
            &&& list@.len() == rows.len()
            &&& forall|i: int|
                0 <= i < rows.len() ==> (#[trigger] list@[i]).id@ == cell_or_empty(
                    rows[i],
                    id_key(),
                ) && list@[i].name@ == part_name(rows[i]) && list@[i].description@ == cell_or_empty(
                    rows[i],
                    description_key(),
                )
        },
{
    let chars = str_to_chars(category_id);
    let strippedv = strip_json(&chars);
    let idx1 = match parse_usize(&strippedv) {
        Some(v) => v,
        None => {
            return Err(ApiError::NotFound);
        },
    };
    if idx1 == 0 || idx1 > library.component_types.len() {
        return Err(ApiError::NotFound);
    }
    let idx = idx1 - 1;
    let ct = &library.component_types[idx];
    let mut list: Vec<PartSummary> = Vec::new();
    let mut i: usize = 0;
    proof {
        assert(crate::library::table_ok(library.component_types@[idx as int].components@));
    }
    while i < ct.components.len()
        invariant
            0 <= i <= ct.components@.len(),
            ct == library.component_types@[idx as int],
            0 <= idx < library.component_types@.len(),
            crate::library::table_ok(library.component_types@[idx as int].components@),
            list@.len() == i,
            forall|m: int|
                0 <= m < i ==> (#[trigger] list@[m]).id@ == cell_or_empty(
                    ct.components@[m],
                    id_key(),
                ) && list@[m].name@ == part_name(ct.components@[m]) && list@[m].description@
                    == cell_or_empty(ct.components@[m], description_key()),
        decreases ct.components@.len() - i,
    {
        list.push(summarize_row(&ct.components[i]));
        i = i + 1;
    }
    Ok(list)
}

/// Whether some table holds a row whose `id` is `pid`.
pub open spec fn part_exists(library: LoadedLibrary, pid: Seq<char>) -> bool {
    exists|t: int, i: int|
        0 <= t < library.component_types@.len() && 0 <= i < (
        #[trigger] library.component_types@[t]).components@.len()
            && cell_or_empty(#[trigger] library.component_types@[t].components@[i], id_key())
            == pid
}

/// The detail of one part, searched across every table in order; the
/// first matching row wins. An unknown identifier is refused.
pub fn get_part_detail(library: &LoadedLibrary, part_id: &str) -> (r: Result<PartDetail, ApiError>)
    requires
        forall|t: int|
            0 <= t < library.component_types@.len() ==> crate::library::table_ok(
                (#[trigger] library.component_types@[t]).components@,
            ),
        forall|t: int|
            0 <= t < library.component_types@.len() ==> (
            #[trigger] library.component_types@[t]).template.fields.wf(),
    ensures
        r is Ok <==> part_exists(*library, stripped(part_id@)),
        r matches Err(e) ==> e is NotFound,
        r matches Ok(d) ==> exists|t: int, i: int|
            0 <= t < library.component_types@.len() && 0 <= i < (
            #[trigger] library.component_types@[t]).components@.len() && cell_or_empty(
                #[trigger] library.component_types@[t].components@[i],
                id_key(),
            ) == stripped(part_id@) && detail_matches(
                d,
                library.component_types@[t].components@[i],
                library.component_types@[t].template,
            ) && (forall|t2: int, i2: int|
                0 <= t2 < t && 0 <= i2 < (#[trigger] library.component_types@[t2]).components@.len()
                    ==> cell_or_empty(
                    #[trigger] library.component_types@[t2].components@[i2],
                    id_key(),
                ) != stripped(part_id@)) && (forall|i2: int|
                0 <= i2 < i ==> cell_or_empty(
                    #[trigger] library.component_types@[t].components@[i2],
                    id_key(),
                ) != stripped(part_id@)),
{
    let chars = str_to_chars(part_id);
    let strippedv = strip_json(&chars);
    let pid = chars_to_string(&strippedv);
    let idk = crate::store::id_string();
    let mut t: usize = 0;
    while t < library.component_types.len()
        invariant
            0 <= t <= library.component_types@.len(),
            pid@ == stripped(part_id@),
            idk@ == id_key(),
            forall|t2: int|
                0 <= t2 < library.component_types@.len() ==> crate::library::table_ok(
                    (#[trigger] library.component_types@[t2]).components@,
                ),
            forall|t2: int|
                0 <= t2 < library.component_types@.len() ==> (
                #[trigger] library.component_types@[t2]).template.fields.wf(),
            forall|t2: int, i2: int|
                0 <= t2 < t && 0 <= i2 < (
                #[trigger] library.component_types@[t2]).components@.len() ==> cell_or_empty(
                    #[trigger] library.component_types@[t2].components@[i2],
                    id_key(),
                ) != pid@,
        decreases library.component_types@.len() - t,
    {
        let ct = &library.component_types[t];
        let mut i: usize = 0;
        while i < ct.components.len()
            invariant
                0 <= i <= ct.components@.len(),
                0 <= t < library.component_types@.len(),
                ct == library.component_types@[t as int],
                pid@ == stripped(part_id@),
                idk@ == id_key(),
                crate::library::table_ok(library.component_types@[t as int].components@),
                library.component_types@[t as int].template.fields.wf(),
                forall|t2: int, i2: int|
                    0 <= t2 < t && 0 <= i2 < (
                    #[trigger] library.component_types@[t2]).components@.len() ==> cell_or_empty(
                        #[trigger] library.component_types@[t2].components@[i2],
                        id_key(),
                    ) != pid@,
                forall|i2: int|
                    0 <= i2 < i ==> cell_or_empty(
                        #[trigger] ct.components@[i2],
                        id_key(),
                    ) != pid@,
            decreases ct.components@.len() - i,
        {
            let row = &ct.components[i];
            let matched = match row.get(&idk) {
                Some(v) => *v == pid,
                None => false,
            };
            if matched {
                let d = build_part_detail(row, &ct.template);
                proof {
                    assert(cell_or_empty(library.component_types@[t as int].components@[i as int],
                        id_key()) == pid@);
                }
                return Ok(d);
            }
            proof {
                assert(cell_or_empty(ct.components@[i as int], id_key()) != pid@);
            }
            i = i + 1;
        }
        t = t + 1;
    }
    proof {
        if part_exists(*library, stripped(part_id@)) {
            let (t2, i2) = choose|t2: int, i2: int|
                0 <= t2 < library.component_types@.len() && 0 <= i2 < (
                #[trigger] library.component_types@[t2]).components@.len() && cell_or_empty(
                    #[trigger] library.component_types@[t2].components@[i2],
                    id_key(),
                ) == stripped(part_id@);
            assert(false);
        }
    }
    Err(ApiError::NotFound)
}

} // verus!
