//! Validation of library data against its schemas: required columns and
//! values, duplicate identifiers, and the shape of symbol, footprint and
//! web-link fields, with the deep reference lookup consulted where its
//! tables are at hand.
use vstd::prelude::*;

verus! {

use crate::kicadlib::{KicadLibraries, LibLookup};
use crate::library::LoadedLibrary;
use crate::store::id_key;
use crate::text::{starts_with, string_to_chars, chars_start_with};
use vstd::string::StringExecFns;

/// How bad a finding is.
pub enum Severity {
    /// The library violates its schema.
    Error,
    /// Suspicious, but served anyway.
    Warn,
}

/// One validation finding.
pub struct ValidationIssue {
    /// How bad it is.
    pub severity: Severity,
    /// The part table it concerns.
    pub part_table: String,
    /// The CSV file behind that table.
    pub file: String,
    /// The 1-based row, for row-level findings.
    pub row: Option<usize>,
    /// The row's identifier, when known.
    pub id: Option<String>,
    /// What was found.
    pub message: String,
}

/// The finding names one of the library's own tables.
pub open spec fn issue_in_tables(library: LoadedLibrary, issue: ValidationIssue) -> bool {
    exists|t: int|
        0 <= t < library.component_types@.len() && issue.part_table@ == (
        #[trigger] library.component_types@[t]).name@
}

/// Count the colons in a value.
fn colon_count(v: &String) -> (r: usize) {
    let chars = string_to_chars(v);
    let mut n: usize = 0;
    let mut i: usize = 0;
    while i < chars.len()
        invariant
            0 <= i <= chars@.len(),
            n <= i,
        decreases chars@.len() - i,
    {
        if chars[i] == ':' {
            n = n + 1;
        }
        i = i + 1;
    }
    n
}

/// Whether a value starts with `http://` or `https://`.
fn is_web_url(v: &String) -> (r: bool)
    ensures
        r == (starts_with(v@, ("http://")@) || starts_with(v@, ("https://")@)),
{
    let chars = string_to_chars(v);
    let http: Vec<char> = vec!['h', 't', 't', 'p', ':', '/', '/'];
    let https: Vec<char> = vec!['h', 't', 't', 'p', 's', ':', '/', '/'];
    proof {
        reveal_strlit("http://");
        reveal_strlit("https://");
        assert(http@ =~= ("http://")@);
        assert(https@ =~= ("https://")@);
    }
    chars_start_with(&chars, &http) || chars_start_with(&chars, &https)
}

fn push_issue(
    issues: &mut Vec<ValidationIssue>,
    severity: Severity,
    part_table: &String,
    file: &String,
    row: Option<usize>,
    id: &String,
    message: String,
)
    ensures
        final(issues)@.len() == old(issues)@.len() + 1,
        forall|i: int| 0 <= i < old(issues)@.len() ==> final(issues)@[i] == old(issues)@[i],
        final(issues)@.last().part_table@ == part_table@,
{
    issues.push(
        ValidationIssue {
            severity,
            part_table: part_table.clone(),
            file: file.clone(),
            row,
            id: Some(id.clone()),
            message,
        },
    );
}

/// Validate one loaded library: every required field must exist as a
/// column and be filled, identifiers must not repeat, symbol and
/// footprint references must look like `Library:Entry` and — when the
/// lookup tables are at hand — resolve, and web links must name a
/// protocol. Findings come out in table order.
pub fn validate_library(
    library: &LoadedLibrary,
    csv_files: &Vec<(String, String)>,
    kicad_libs: Option<&KicadLibraries>,
) -> (issues: Vec<ValidationIssue>)
    requires
        forall|t: int|
            0 <= t < library.component_types@.len() ==> crate::library::table_ok(
                (#[trigger] library.component_types@[t]).components@,
            ),
        forall|t: int|
            0 <= t < library.component_types@.len() ==> (
            #[trigger] library.component_types@[t]).template.fields.wf(),
    ensures
        forall|i: int|
            0 <= i < issues@.len() ==> #[trigger] issue_in_tables(*library, issues@[i]),
{
    let sym_type = String::from_str("kicad_symbol");
    let fp_type = String::from_str("kicad_footprint");
    let url_type = String::from_str("url");
    let idk = crate::store::id_string();
    let mut issues: Vec<ValidationIssue> = Vec::new();
    let mut t: usize = 0;
    while t < library.component_types.len()
        invariant
            0 <= t <= library.component_types@.len(),
            idk@ == id_key(),
            forall|t2: int|
                0 <= t2 < library.component_types@.len() ==> crate::library::table_ok(
                    (#[trigger] library.component_types@[t2]).components@,
                ),
            forall|t2: int|
                0 <= t2 < library.component_types@.len() ==> (
                #[trigger] library.component_types@[t2]).template.fields.wf(),
            forall|i: int|
                0 <= i < issues@.len() ==> #[trigger] issue_in_tables(*library, issues@[i]),
        decreases library.component_types@.len() - t,
    {
        let ct = &library.component_types[t];
        let mut csv_file = ct.template_name.clone();
        let mut f: usize = 0;
        while f < csv_files.len()
            invariant
                0 <= f <= csv_files@.len(),
            decreases csv_files@.len() - f,
        {
            if csv_files[f].0 == ct.name {
                csv_file = csv_files[f].1.clone();
            }
            f = f + 1;
        }

        // Required fields must exist as columns of the table.
        let mut k: usize = 0;
        while k < ct.template.fields.len()
            invariant
                0 <= k <= ct.template.fields.key_seq().len(),
                ct == library.component_types@[t as int],
                0 <= t < library.component_types@.len(),
                ct.template.fields.wf(),
                crate::library::table_ok(ct.components@),
                forall|i: int|
                    0 <= i < issues@.len() ==> #[trigger] issue_in_tables(*library, issues@[i]),
            decreases ct.template.fields.key_seq().len() - k,
    {
            let field_name = ct.template.fields.key_at(k).clone();
            let fd = ct.template.fields.val_at(k);
            let present = match ct.components.len() {
                0 => true,
                _ => match ct.components[0].find(&field_name) {
                    Some(_) => true,
                    None => false,
                },
            };
            if fd.required && !present {
                let mut msg = String::from_str("required field '");
                msg.append(field_name.as_str());
                msg.append("' is missing from CSV columns");
                let none_id = String::new();
                push_issue(&mut issues, Severity::Error, &ct.name, &csv_file, None, &none_id, msg);
                proof {
                    assert(issue_in_tables(*library, issues@.last()));
                }
            }
            k = k + 1;
        }

        // Row-level checks.
        let mut seen_ids: Vec<String> = Vec::new();
        let mut r: usize = 0;
        while r < ct.components.len()
            invariant
                0 <= r <= ct.components@.len(),
                ct == library.component_types@[t as int],
                0 <= t < library.component_types@.len(),
                ct.template.fields.wf(),
                crate::library::table_ok(ct.components@),
                idk@ == id_key(),
                forall|i: int|
                    0 <= i < issues@.len() ==> #[trigger] issue_in_tables(*library, issues@[i]),
            decreases ct.components@.len() - r,
    {
            let row = &ct.components[r];
            let row_num = r + 1;
            let row_id = row.get_or_empty(&idk);
            if !row_id.as_str().is_empty() && crate::store::contains_string(&seen_ids, &row_id) {
                let mut msg = String::from_str("duplicate id '");
                msg.append(row_id.as_str());
                msg.append("'");
                push_issue(
                    &mut issues,
                    Severity::Error,
                    &ct.name,
                    &csv_file,
                    Some(row_num),
                    &row_id,
                    msg,
                );
                proof {
                    assert(issue_in_tables(*library, issues@.last()));
                }
            }
            seen_ids.push(row_id.clone());

            let mut k2: usize = 0;
            while k2 < ct.template.fields.len()
                invariant
                    0 <= k2 <= ct.template.fields.key_seq().len(),
                    ct == library.component_types@[t as int],
                    0 <= t < library.component_types@.len(),
                    0 <= r < ct.components@.len(),
                    row == ct.components@[r as int],
                    crate::library::table_ok(ct.components@),
                    ct.template.fields.wf(),
                    forall|i: int|
                        0 <= i < issues@.len() ==> #[trigger] issue_in_tables(*library, issues@[i]),
                decreases ct.template.fields.key_seq().len() - k2,
        {
                let field_name = ct.template.fields.key_at(k2).clone();
                let fd = ct.template.fields.val_at(k2);
                let value = row.get_or_empty(&field_name);
                let display = fd.display_name.clone();
                let required = fd.required;
                let field_type = match &fd.field_type {
                    Some(ftv) => Some(ftv.clone()),
                    None => None,
                };
                let has_column = match row.find(&field_name) {
                    Some(_) => true,
                    None => false,
                };
                if value.as_str().is_empty() {
                    if required && has_column {
                        let mut msg = String::from_str("required field '");
                        msg.append(display.as_str());
                        msg.append("' is empty");
                        push_issue(
                            &mut issues,
                            Severity::Error,
                            &ct.name,
                            &csv_file,
                            Some(row_num),
                            &row_id,
                            msg,
                        );
                        proof {
                            assert(issue_in_tables(*library, issues@.last()));
                        }
                    } else {
                        match &field_type {
                            Some(ftv) => {
                                let mut msg = String::from_str("field '");
                                msg.append(display.as_str());
                                msg.append("' is empty (");
                                msg.append(ftv.as_str());
                                msg.append(" field)");
                                push_issue(
                                    &mut issues,
                                    Severity::Warn,
                                    &ct.name,
                                    &csv_file,
                                    Some(row_num),
                                    &row_id,
                                    msg,
                                );
                                proof {
                                    assert(issue_in_tables(*library, issues@.last()));
                                }
                            },
                            None => {},
                        }
                    }
                } else {
                    let is_sym = match &field_type {
                        Some(ftv) => *ftv == sym_type,
                        None => false,
                    };
                    let is_fp = match &field_type {
                        Some(ftv) => *ftv == fp_type,
                        None => false,
                    };
                    let is_url = match &field_type {
                        Some(ftv) => *ftv == url_type,
                        None => false,
                    };
                    if is_sym || is_fp {
                        if colon_count(&value) != 1 {
                            let sev = if required {
                                Severity::Error
                            } else {
                                Severity::Warn
                            };
                            let mut msg = String::from_str("field '");
                            msg.append(display.as_str());
                            msg.append("' has invalid reference '");
                            msg.append(value.as_str());
                            msg.append("' (expected 'Library:Name')");
                            push_issue(
                                &mut issues,
                                sev,
                                &ct.name,
                                &csv_file,
                                Some(row_num),
                                &row_id,
                                msg,
                            );
                            proof {
                                assert(issue_in_tables(*library, issues@.last()));
                            }
                        } else {
                            match kicad_libs {
                                Some(klibs) => {
                                    let result = if is_sym {
                                        klibs.has_symbol(value.as_str())
                                    } else {
                                        klibs.has_footprint(value.as_str())
                                    };
                                    match result {
                                        LibLookup::Found => {},
                                        LibLookup::LibraryNotFound(lib) => {
                                            let mut msg = String::from_str("library '");
                                            msg.append(lib.as_str());
                                            msg.append("' not found in lib tables");
                                            push_issue(
                                                &mut issues,
                                                Severity::Warn,
                                                &ct.name,
                                                &csv_file,
                                                Some(row_num),
                                                &row_id,
                                                msg,
                                            );
                                            proof {
                                                assert(issue_in_tables(*library, issues@.last()));
                                            }
                                        },
                                        LibLookup::EntryNotFound(lib, entry) => {
                                            let mut msg = String::from_str("'");
                                            msg.append(entry.as_str());
                                            msg.append("' not found in library '");
                                            msg.append(lib.as_str());
                                            msg.append("'");
                                            push_issue(
                                                &mut issues,
                                                Severity::Warn,
                                                &ct.name,
                                                &csv_file,
                                                Some(row_num),
                                                &row_id,
                                                msg,
                                            );
                                            proof {
                                                assert(issue_in_tables(*library, issues@.last()));
                                            }
                                        },
                                        LibLookup::LibraryUnreadable(_) => {},
                                    }
                                },
                                None => {},
                            }
                        }
                    }
                    if is_url && !is_web_url(&value) {
                        let sev = if required {
                            Severity::Error
                        } else {
                            Severity::Warn
                        };
                        let mut msg = String::from_str("field '");
                        msg.append(display.as_str());
                        msg.append("' has invalid URL '");
                        msg.append(value.as_str());
                        msg.append("' (must start with http:// or https://)");
                        push_issue(
                            &mut issues,
                            sev,
                            &ct.name,
                            &csv_file,
                            Some(row_num),
                            &row_id,
                            msg,
                        );
                        proof {
                            assert(issue_in_tables(*library, issues@.last()));
                        }
                    }
                }
                k2 = k2 + 1;
            }
            r = r + 1;
        }
        t = t + 1;
    }
    issues
}

/// How many findings of each severity there are: errors, then warnings.
pub fn count_issues(issues: &Vec<ValidationIssue>) -> (r: (usize, usize))
    ensures
        r.0 <= issues@.len(),
        r.1 <= issues@.len(),
        r.0 + r.1 == issues@.len(),
{
    let mut errors: usize = 0;
    let mut warnings: usize = 0;
    let mut i: usize = 0;
    while i < issues.len()
        invariant
            0 <= i <= issues@.len(),
            errors + warnings == i,
        decreases issues@.len() - i,
    {
        match issues[i].severity {
            Severity::Error => {
                errors = errors + 1;
            },
            Severity::Warn => {
                warnings = warnings + 1;
            },
        }
        i = i + 1;
    }
    (errors, warnings)
}

} // verus!
