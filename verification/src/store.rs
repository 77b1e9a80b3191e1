//! The CSV store: loading a table while enforcing that every row carries a
//! unique, non-empty `id`, writing tables back, and column maintenance.
//! Functions here take file contents and hand back new contents; reading
//! and writing the files themselves is the caller's business.
use vstd::prelude::*;

verus! {

use crate::csvfmt::{emit_records, parse_records, emit_csv, parse_csv_chars};
use crate::rowmap::{CsvRow, find_key, lemma_find_key};
use crate::text::{chars_to_string, str_to_chars, string_to_chars};
use vstd::string::StringExecFns;

/// What can go wrong handling a CSV file. The payloads carry a message.
#[derive(Debug)]
pub enum CsvError {
    /// An input/output failure, or a row that an edit did not find.
    Io(String),
    /// Malformed CSV data.
    Csv(String),
    /// A file with no header row at all.
    NoHeaders,
}

/// The column name every table must carry: `id`.
pub open spec fn id_key() -> Seq<char> {
    seq!['i', 'd']
}

/// The `id` column name as a string.
pub fn id_string() -> (s: String)
    ensures
        s@ == id_key(),
{
    let s: &str = "id";
    proof {
        reveal_strlit("id");
        assert(s@ =~= id_key());
    }
    String::from_str(s)
}

/// Relies on `uuid::Uuid::new_v4` and its `Display` form: a fresh random
/// UUID rendered in the hyphenated format, which is exactly 36 characters.
/// Nothing is assumed about which value comes back.
#[verifier::external_body]
fn gen_row_id() -> (r: String)
    ensures
        r@.len() == 36,
{
    uuid::Uuid::new_v4().to_string()
}

/// Whether `v` holds a string with the characters of `s`.
pub fn contains_string(v: &Vec<String>, s: &String) -> (r: bool)
    ensures
        r == v.deep_view().contains(s@),
{
    let mut i: usize = 0;
    while i < v.len()
        invariant
            0 <= i <= v@.len(),
            forall|j: int| 0 <= j < i ==> v.deep_view()[j] != s@,
        decreases v@.len() - i,
    {
        if v[i] == *s {
            proof {
                assert(v.deep_view()[i as int] == s@);
            }
            return true;
        }
        proof {
            assert(v.deep_view()[i as int] == v@[i as int]@);
        }
        i = i + 1;
    }
    proof {
        assert(forall|j: int| 0 <= j < v.deep_view().len() ==> v.deep_view()[j] != s@);
    }
    false
}

/// A row identifier that is non-empty and collides with nothing in `used`
/// or `seen`: a fresh 36-character UUID when that does not collide (it
/// practically never does), else a string strictly longer than everything
/// to avoid.
fn fresh_row_id(used: &Vec<String>, seen: &Vec<String>) -> (r: String)
    ensures
        r@.len() > 0,
        !used.deep_view().contains(r@),
        !seen.deep_view().contains(r@),
        r@.len() >= 36,
        r@.len() == 36 || ((forall|u: int|
            0 <= u < used.deep_view().len() ==> r@.len() > (#[trigger] used.deep_view()[
                u
            ]).len()) && (forall|v: int|
            0 <= v < seen.deep_view().len() ==> r@.len() > (#[trigger] seen.deep_view()[
                v
            ]).len())),
{
    let candidate = gen_row_id();
    let in_used = contains_string(used, &candidate);
    let in_seen = contains_string(seen, &candidate);
    if !in_used && !in_seen {
        return candidate;
    }
    let ghost collided: Seq<char> = candidate@;
    let mut chars: Vec<char> = Vec::new();
    let mut i: usize = 0;
    while i < used.len()
        invariant
            0 <= i <= used@.len(),
            forall|j: int| 0 <= j < i ==> chars@.len() >= used.deep_view()[j].len(),
        decreases used@.len() - i,
    {
        let mut piece = string_to_chars(&used[i]);
        let ghost before = chars@;
        chars.append(&mut piece);
        proof {
            assert(chars@.len() >= used@[i as int]@.len());
            assert(used.deep_view()[i as int] == used@[i as int]@);
        }
        i = i + 1;
    }
    let ghost mid = chars@;
    let mut k: usize = 0;
    while k < seen.len()
        invariant
            0 <= k <= seen@.len(),
            chars@.len() >= mid.len(),
            forall|j: int| 0 <= j < i ==> chars@.len() >= used.deep_view()[j].len(),
            forall|j: int| 0 <= j < k ==> chars@.len() >= seen.deep_view()[j].len(),
            i == used@.len(),
        decreases seen@.len() - k,
    {
        let mut piece = string_to_chars(&seen[k]);
        chars.append(&mut piece);
        proof {
            assert(chars@.len() >= seen@[k as int]@.len());
            assert(seen.deep_view()[k as int] == seen@[k as int]@);
        }
        k = k + 1;
    }
    chars.push('x');
    let r = chars_to_string(&chars);
    proof {
        assert(forall|j: int|
            0 <= j < used.deep_view().len() ==> r@.len() > used.deep_view()[j].len());
        assert(forall|j: int|
            0 <= j < seen.deep_view().len() ==> r@.len() > seen.deep_view()[j].len());
        // The collided identifier is among those avoided, so the fallback
        // is even longer than a UUID.
        if in_used {
            let w = choose|w: int|
                0 <= w < used.deep_view().len() && #[trigger] used.deep_view()[w] == collided;
            assert(r@.len() > used.deep_view()[w].len());
        } else {
            let w = choose|w: int|
                0 <= w < seen.deep_view().len() && #[trigger] seen.deep_view()[w] == collided;
            assert(r@.len() > seen.deep_view()[w].len());
        }
        assert(r@.len() >= 36);
    }
    r
}

/// `find_key` over a sequence extended by one key.
pub proof fn lemma_find_key_push(keys: Seq<Seq<char>>, x: Seq<char>, k: Seq<char>)
    ensures
        find_key(keys, k) >= 0 ==> find_key(keys.push(x), k) == find_key(keys, k),
        find_key(keys, k) < 0 && x == k ==> find_key(keys.push(x), k) == keys.len(),
        find_key(keys, k) < 0 && x != k ==> find_key(keys.push(x), k) < 0,
    decreases keys.len(),
{
    if keys.len() == 0 {
        assert(keys.push(x)[0] == x);
        if x != k {
            assert(keys.push(x).drop_first() =~= Seq::<Seq<char>>::empty());
            assert(find_key(Seq::<Seq<char>>::empty(), k) == -1);
            assert(find_key(keys.push(x), k) < 0);
        }
    } else {
        lemma_find_key_push(keys.drop_first(), x, k);
        assert(keys.push(x).drop_first() =~= keys.drop_first().push(x));
        assert(keys.push(x)[0] == keys[0]);
    }
}

/// In a duplicate-free key sequence, every key is found at its own place.
pub proof fn lemma_find_key_distinct(keys: Seq<Seq<char>>, j: int)
    requires
        0 <= j < keys.len(),
        forall|a: int, b: int| 0 <= a < b < keys.len() ==> keys[a] != keys[b],
    ensures
        find_key(keys, keys[j]) == j,
{
    lemma_find_key(keys, keys[j]);
    let f = find_key(keys, keys[j]);
    if f < 0 {
        assert(keys[j] != keys[j]);
    } else {
        if f < j {
            assert(keys[f] != keys[j]);
        } else if f > j {
            assert(keys[j] != keys[f]);
        }
    }
}

/// A sequence of column names with no repeats.
pub open spec fn distinct_seqs(s: Seq<Seq<char>>) -> bool {
    forall|a: int, b: int| 0 <= a < b < s.len() ==> s[a] != s[b]
}

/// Build one row from the header names and one record's cells, column by
/// column; a repeated header keeps its first position and last value.
fn build_row(headers: &Vec<String>, cells: &Vec<String>) -> (r: CsvRow)
    requires
        headers@.len() == cells@.len(),
    ensures
        r.wf(),
        forall|k: Seq<char>| r.has_key(k) <==> headers.deep_view().contains(k),
        distinct_seqs(headers.deep_view()) ==> r.key_seq() == headers.deep_view()
            && r.val_seq() == cells.deep_view(),
{
    let ghost hs = headers.deep_view();
    let ghost cs = cells.deep_view();
    let mut r = CsvRow::new();
    let mut j: usize = 0;
    while j < headers.len()
        invariant
            0 <= j <= headers@.len(),
            headers@.len() == cells@.len(),
            hs == headers.deep_view(),
            cs == cells.deep_view(),
            hs.len() == headers@.len(),
            cs.len() == cells@.len(),
            r.wf(),
            forall|k: Seq<char>| r.has_key(k) <==> hs.take(j as int).contains(k),
            distinct_seqs(hs) ==> r.key_seq() == hs.take(j as int) && r.val_seq() == cs.take(
                j as int,
            ),
        decreases headers@.len() - j,
    {
        let ghost rr = r;
        proof {
            assert(hs[j as int] == headers@[j as int]@);
            assert(cs[j as int] == cells@[j as int]@);
        }
        r.insert(headers[j].clone(), cells[j].clone());
        proof {
            let x = hs[j as int];
            assert forall|k: Seq<char>|
                hs.take(j + 1).contains(k) implies hs.take(j as int).contains(k) || k == x by {
                let w = choose|w: int| 0 <= w < j + 1 && #[trigger] hs.take(j + 1)[w] == k;
                if w < j {
                    assert(hs.take(j as int)[w] == k);
                } else {
                    assert(k == x);
                }
            }
            assert forall|k: Seq<char>|
                hs.take(j as int).contains(k) implies hs.take(j + 1).contains(k) by {
                let w = choose|w: int| 0 <= w < j && #[trigger] hs.take(j as int)[w] == k;
                assert(hs.take(j + 1)[w] == k);
            }
            assert(hs.take(j + 1)[j as int] == x);
            assert(hs.take(j + 1).contains(x));
            if rr.has_key(x) {
                assert(rr.key_seq() == r.key_seq());
                assert(forall|k: Seq<char>| #[trigger] r.has_key(k) <==> rr.has_key(k));
                if distinct_seqs(hs) {
                    assert(hs.take(j as int).contains(x));
                    let w = choose|w: int| 0 <= w < j && #[trigger] hs.take(j as int)[w] == x;
                    assert(hs[w] == hs[j as int]);
                    assert(false);
                }
            } else {
                assert(r.key_seq() == rr.key_seq().push(x));
                assert forall|k: Seq<char>| #[trigger]
                    r.has_key(k) <==> rr.has_key(k) || k == x by {
                    lemma_find_key_push(rr.key_seq(), x, k);
                }
                if distinct_seqs(hs) {
                    assert(hs.take(j + 1) =~= hs.take(j as int).push(x));
                    assert(cs.take(j + 1) =~= cs.take(j as int).push(cs[j as int]));
                }
            }
        }
        j = j + 1;
    }
    proof {
        assert(hs.take(hs.len() as int) =~= hs);
        assert(cs.take(cs.len() as int) =~= cs);
    }
    r
}

/// Whether a string has no characters.
fn str_is_empty(s: &String) -> (r: bool)
    ensures
        r == (s@.len() == 0),
{
    s.as_str().is_empty()
}

/// First position of `s` in `v`, or none.
pub fn find_string(v: &Vec<String>, s: &String) -> (r: Option<usize>)
    ensures
        r is Some <==> find_key(v.deep_view(), s@) >= 0,
        r is Some ==> r->Some_0 == find_key(v.deep_view(), s@),
{
    let mut i: usize = 0;
    while i < v.len()
        invariant
            0 <= i <= v@.len(),
            forall|j: int| 0 <= j < i ==> v.deep_view()[j] != s@,
        decreases v@.len() - i,
    {
        if v[i] == *s {
            proof {
                assert(v.deep_view()[i as int] == s@);
                lemma_find_key(v.deep_view(), s@);
            }
            return Some(i);
        }
        proof {
            assert(v.deep_view()[i as int] == v@[i as int]@);
        }
        i = i + 1;
    }
    proof {
        lemma_find_key(v.deep_view(), s@);
    }
    None
}

/// A row with the `id` column prepended.
fn prepend_id(row: &CsvRow, idk: &String, nid: &String) -> (r: CsvRow)
    requires
        row.wf(),
        !row.has_key(id_key()),
        idk@ == id_key(),
    ensures
        r.wf(),
        r.key_seq() == seq![id_key()] + row.key_seq(),
        r.val_seq() == seq![nid@] + row.val_seq(),
{
    let mut r = CsvRow::new();
    r.insert(idk.clone(), nid.clone());
    proof {
        lemma_find_key(row.key_seq(), id_key());
        assert(r.key_seq() =~= seq![id_key()] + row.key_seq().take(0));
        assert(r.val_seq() =~= seq![nid@] + row.val_seq().take(0));
    }
    let mut j: usize = 0;
    while j < row.len()
        invariant
            0 <= j <= row.key_seq().len(),
            row.wf(),
            forall|i: int| 0 <= i < row.key_seq().len() ==> row.key_seq()[i] != id_key(),
            r.wf(),
            r.key_seq() == seq![id_key()] + row.key_seq().take(j as int),
            r.val_seq() == seq![nid@] + row.val_seq().take(j as int),
        decreases row.key_seq().len() - j,
    {
        let ghost rr = r;
        let k = row.key_at(j).clone();
        let v = row.val_at(j).clone();
        proof {
            lemma_find_key(rr.key_seq(), k@);
            if rr.has_key(k@) {
                let f = find_key(rr.key_seq(), k@);
                if f == 0 {
                    assert(row.key_seq()[j as int] == id_key());
                } else {
                    assert(rr.key_seq()[f] == row.key_seq().take(j as int)[f - 1]);
                    assert(row.key_seq()[f - 1] == row.key_seq()[j as int]);
                }
                assert(false);
            }
        }
        r.insert(k, v);
        proof {
            assert(r.key_seq() =~= seq![id_key()] + row.key_seq().take(j + 1));
            assert(r.val_seq() =~= seq![nid@] + row.val_seq().take(j + 1));
        }
        j = j + 1;
    }
    proof {
        assert(row.key_seq().take(row.key_seq().len() as int) =~= row.key_seq());
        assert(row.val_seq().take(row.val_seq().len() as int) =~= row.val_seq());
    }
    r
}

/// Walk the rows and enforce the identifier policy: a missing `id` column
/// is prepended with fresh values; an empty or already-seen value is
/// replaced; everything else is kept. Returns whether anything changed.
fn assign_ids(rows: &mut Vec<CsvRow>, has_id: bool, used: &Vec<String>) -> (changed: bool)
    requires
        forall|i: int| 0 <= i < old(rows)@.len() ==> (#[trigger] old(rows)@[i]).wf(),
        has_id ==> forall|i: int|
            0 <= i < old(rows)@.len() ==> (#[trigger] old(rows)@[i]).has_key(id_key()),
        !has_id ==> forall|i: int|
            0 <= i < old(rows)@.len() ==> !(#[trigger] old(rows)@[i]).has_key(id_key()),
        has_id ==> forall|i: int|
            0 <= i < old(rows)@.len() && (#[trigger] old(rows)@[i]).spec_get(id_key()).len() > 0
                ==> used.deep_view().contains(old(rows)@[i].spec_get(id_key())),
    ensures
        final(rows)@.len() == old(rows)@.len(),
        forall|i: int| 0 <= i < final(rows)@.len() ==> (#[trigger] final(rows)@[i]).wf(),
        forall|i: int|
            0 <= i < final(rows)@.len() ==> (#[trigger] final(rows)@[i]).has_key(id_key())
                && final(rows)@[i].spec_get(id_key()).len() > 0,
        forall|i: int, j: int|
            0 <= i < j < final(rows)@.len() ==> (#[trigger] final(rows)@[i]).spec_get(id_key()) != (
            #[trigger] final(rows)@[j]).spec_get(id_key()),
        has_id ==> forall|i: int|
            0 <= i < final(rows)@.len() ==> (#[trigger] final(rows)@[i]).key_seq() == old(
                rows,
            )@[i].key_seq(),
        has_id ==> forall|i: int|
            0 <= i < final(rows)@.len() ==> (#[trigger] final(rows)@[i]).val_seq() == old(
                rows,
            )@[i].val_seq() || final(rows)@[i].val_seq() == old(rows)@[i].val_seq().update(
                find_key(old(rows)@[i].key_seq(), id_key()),
                final(rows)@[i].spec_get(id_key()),
            ),
        has_id ==> forall|i: int|
            0 <= i < final(rows)@.len() ==> ((#[trigger] final(rows)@[i]).spec_get(id_key()) == old(
                rows,
            )@[i].spec_get(id_key()) <==> (old(rows)@[i].spec_get(id_key()).len() > 0
                && (forall|j: int|
                0 <= j < i ==> final(rows)@[j].spec_get(id_key()) != old(rows)@[i].spec_get(
                    id_key(),
                )))),
        !has_id ==> forall|i: int|
            0 <= i < final(rows)@.len() ==> (#[trigger] final(rows)@[i]).key_seq() == seq![id_key()]
                + old(rows)@[i].key_seq() && final(rows)@[i].val_seq().len() == old(
                rows,
            )@[i].val_seq().len() + 1 && final(rows)@[i].val_seq().drop_first() == old(
                rows,
            )@[i].val_seq() && final(rows)@[i].val_seq()[0] == final(rows)@[i].spec_get(id_key()),
        changed <==> ((has_id && exists|i: int|
            0 <= i < final(rows)@.len() && (#[trigger] final(rows)@[i]).spec_get(id_key()) != old(
                rows,
            )@[i].spec_get(id_key())) || (!has_id && old(rows)@.len() > 0)),
        forall|i: int|
            0 <= i < final(rows)@.len() ==> ((has_id && (#[trigger] final(rows)@[i]).spec_get(
                id_key(),
            ) == old(rows)@[i].spec_get(id_key())) || final(rows)@[i].spec_get(id_key()).len()
                >= 36),
{
    let idk = id_string();
    let mut seen: Vec<String> = Vec::new();
    let mut changed = false;
    let mut i: usize = 0;
    while i < rows.len()
        invariant
            0 <= i <= rows@.len(),
            rows@.len() == old(rows)@.len(),
            idk@ == id_key(),
            forall|j: int| i <= j < rows@.len() ==> rows@[j] == old(rows)@[j],
            forall|j: int| 0 <= j < old(rows)@.len() ==> (#[trigger] old(rows)@[j]).wf(),
            has_id ==> forall|j: int|
                0 <= j < old(rows)@.len() ==> (#[trigger] old(rows)@[j]).has_key(id_key()),
            !has_id ==> forall|j: int|
                0 <= j < old(rows)@.len() ==> !(#[trigger] old(rows)@[j]).has_key(id_key()),
            has_id ==> forall|j: int|
                0 <= j < old(rows)@.len() && (#[trigger] old(rows)@[j]).spec_get(id_key()).len()
                    > 0 ==> used.deep_view().contains(old(rows)@[j].spec_get(id_key())),
            seen@.len() == i,
            forall|j: int|
                0 <= j < i ==> seen.deep_view()[j] == (#[trigger] rows@[j]).spec_get(id_key()),
            forall|j: int| 0 <= j < i ==> (#[trigger] rows@[j]).wf(),
            forall|j: int|
                0 <= j < i ==> (#[trigger] rows@[j]).has_key(id_key()) && rows@[j].spec_get(
                    id_key(),
                ).len() > 0,
            forall|a: int, b: int|
                0 <= a < b < i ==> (#[trigger] rows@[a]).spec_get(id_key()) != (
                #[trigger] rows@[b]).spec_get(id_key()),
            has_id ==> forall|j: int|
                0 <= j < i ==> (#[trigger] rows@[j]).key_seq() == old(rows)@[j].key_seq(),
            has_id ==> forall|j: int|
                0 <= j < i ==> (#[trigger] rows@[j]).val_seq() == old(rows)@[j].val_seq()
                    || rows@[j].val_seq() == old(rows)@[j].val_seq().update(
                    find_key(old(rows)@[j].key_seq(), id_key()),
                    rows@[j].spec_get(id_key()),
                ),
            has_id ==> forall|j: int|
                0 <= j < i ==> ((#[trigger] rows@[j]).spec_get(id_key()) == old(rows)@[j].spec_get(
                    id_key(),
                ) <==> (old(rows)@[j].spec_get(id_key()).len() > 0 && forall|m: int|
                    0 <= m < j ==> rows@[m].spec_get(id_key()) != old(rows)@[j].spec_get(
                        id_key(),
                    ))),
            !has_id ==> forall|j: int|
                0 <= j < i ==> (#[trigger] rows@[j]).key_seq() == seq![id_key()] + old(
                    rows,
                )@[j].key_seq() && rows@[j].val_seq() == seq![rows@[j].spec_get(id_key())] + old(
                    rows,
                )@[j].val_seq(),
            changed <==> ((has_id && exists|j: int|
                0 <= j < i && (#[trigger] rows@[j]).spec_get(id_key()) != old(rows)@[j].spec_get(
                    id_key(),
                )) || (!has_id && i > 0)),
            forall|j: int|
                0 <= j < i ==> ((has_id && (#[trigger] rows@[j]).spec_get(id_key()) == old(
                    rows,
                )@[j].spec_get(id_key())) || rows@[j].spec_get(id_key()).len() >= 36),
        decreases rows@.len() - i,
    {
        let ghost prev = rows@;
        if has_id {
            let cur = rows[i].get_or_empty(&idk);
            proof {
                assert(rows@[i as int] == old(rows)@[i as int]);
                assert(cur@ == old(rows)@[i as int].spec_get(id_key()));
            }
            let was_empty = str_is_empty(&cur);
            let was_seen = contains_string(&seen, &cur);
            let ghost seen_before = seen.deep_view();
            if was_empty || was_seen {
                let nid = fresh_row_id(used, &seen);
                let mut row = rows[i].clone_row();
                proof {
                    lemma_find_key(row.key_seq(), id_key());
                }
                row.insert(idk.clone(), nid.clone());
                proof {
                    assert(row.spec_get(id_key()) == nid@);
                }
                rows.set(i, row);
                seen.push(nid);
                changed = true;
                proof {
                    if cur@.len() > 0 {
                        assert(used.deep_view().contains(cur@));
                        assert(rows@[i as int].spec_get(id_key()) != cur@);
                    } else {
                        assert(rows@[i as int].spec_get(id_key()).len() > 0);
                    }
                    assert(seen.deep_view() =~~= seen_before.push(nid@));
                    assert forall|j: int|
                        0 <= j < i implies (#[trigger] rows@[j]).spec_get(id_key()) != rows@[
                        i as int
                    ].spec_get(id_key()) by {
                        assert(seen_before[j] == rows@[j].spec_get(id_key()));
                        assert(seen_before.contains(seen_before[j]));
                    }
                    if !was_empty {
                        let m = choose|m: int|
                            0 <= m < seen_before.len() && #[trigger] seen_before[m] == cur@;
                        assert(rows@[m].spec_get(id_key()) == cur@);
                    }
                    assert(!(old(rows)@[i as int].spec_get(id_key()).len() > 0 && (forall|m: int|
                        0 <= m < i ==> rows@[m].spec_get(id_key()) != old(rows)@[i as int].spec_get(
                            id_key(),
                        ))));
                    assert(rows@[i as int].spec_get(id_key()) != old(rows)@[i as int].spec_get(
                        id_key(),
                    ));
                }
            } else {
                seen.push(cur);
                proof {
                    assert(seen.deep_view() =~~= seen_before.push(cur@));
                    assert(rows@[i as int].spec_get(id_key()) == old(rows)@[i as int].spec_get(
                        id_key(),
                    ));
                    assert forall|j: int|
                        0 <= j < i implies (#[trigger] rows@[j]).spec_get(id_key()) != rows@[
                        i as int
                    ].spec_get(id_key()) by {
                        assert(seen_before[j] == rows@[j].spec_get(id_key()));
                        assert(seen_before.contains(seen_before[j]));
                    }
                    assert(old(rows)@[i as int].spec_get(id_key()).len() > 0 && (forall|m: int|
                        0 <= m < i ==> rows@[m].spec_get(id_key()) != old(rows)@[i as int].spec_get(
                            id_key(),
                        )));
                }
            }
        } else {
            let nid = fresh_row_id(used, &seen);
            let row = prepend_id(&rows[i], &idk, &nid);
            proof {
                assert(row.key_seq()[0] == id_key());
                lemma_find_key(row.key_seq(), id_key());
                assert(row.spec_get(id_key()) == nid@);
            }
            rows.set(i, row);
            seen.push(nid);
            changed = true;
            proof {
                assert(forall|j: int|
                    0 <= j < i ==> (#[trigger] rows@[j]).spec_get(id_key()) != rows@[
                        i as int
                    ].spec_get(id_key())) by {
                    assert(forall|j: int|
                        0 <= j < i ==> seen.deep_view().take(i as int)[j] == (
                        #[trigger] rows@[j]).spec_get(id_key()));
                }
            }
        }
        proof {
            assert(forall|j: int|
                0 <= j < i ==> seen.deep_view()[j] == seen.deep_view().take(i as int)[j]);
            assert(forall|j: int| 0 <= j < i ==> rows@[j] == prev[j]);
            if has_id {
                assert forall|j: int| 0 <= j < i implies ((#[trigger] rows@[j]).spec_get(id_key())
                    == old(rows)@[j].spec_get(id_key()) <==> (old(rows)@[j].spec_get(
                    id_key(),
                ).len() > 0 && (forall|m: int|
                    0 <= m < j ==> rows@[m].spec_get(id_key()) != old(rows)@[j].spec_get(
                        id_key(),
                    )))) by {
                    assert(prev[j].spec_get(id_key()) == old(rows)@[j].spec_get(id_key()) <==> (old(
                        rows,
                    )@[j].spec_get(id_key()).len() > 0 && (forall|m: int|
                        0 <= m < j ==> prev[m].spec_get(id_key()) != old(rows)@[j].spec_get(
                            id_key(),
                        ))));
                    assert(forall|m: int|
                        0 <= m < j ==> (#[trigger] rows@[m]).spec_get(id_key()) == prev[
                            m
                        ].spec_get(id_key()));
                }
            }
        }
        i = i + 1;
    }
    changed
}

/// One record's cells laid out under the given headers: the row's value
/// for each header, or the empty string where the row lacks the column.
pub open spec fn row_cells(headers: Seq<Seq<char>>, row: CsvRow) -> Seq<Seq<char>> {
    Seq::new(
        headers.len(),
        |j: int|
            if row.has_key(headers[j]) {
                row.spec_get(headers[j])
            } else {
                Seq::<char>::empty()
            },
    )
}

/// The records a table writes out: the first row's columns as the header
/// line, then every row's cells in that column order.
pub open spec fn out_records(rows: Seq<CsvRow>) -> Seq<Seq<Seq<char>>> {
    seq![rows[0].key_seq()] + Seq::new(rows.len(), |i: int| row_cells(rows[0].key_seq(), rows[i]))
}

/// Render a table as CSV text: the first row's columns become the header
/// line. An empty table yields nothing, leaving the file untouched.
pub fn write_csv(rows: &Vec<CsvRow>) -> (r: Option<String>)
    requires
        forall|i: int| 0 <= i < rows@.len() ==> (#[trigger] rows@[i]).wf(),
    ensures
        r is Some <==> rows@.len() > 0,
        r is Some ==> r->Some_0@ == emit_records(out_records(rows@)),
{
    if rows.len() == 0 {
        return None;
    }
    let ghost hdr = rows@[0].key_seq();
    let mut headers: Vec<String> = Vec::new();
    let first = &rows[0];
    let mut j: usize = 0;
    while j < first.len()
        invariant
            0 <= j <= hdr.len(),
            rows@.len() > 0,
            first == rows@[0],
            hdr == rows@[0].key_seq(),
            headers.deep_view() =~= hdr.take(j as int),
        decreases hdr.len() - j,
    {
        let ghost before = headers.deep_view();
        headers.push(first.key_at(j).clone());
        proof {
            assert(headers.deep_view() =~~= before.push(hdr[j as int]));
            assert(headers.deep_view() =~= hdr.take(j + 1));
        }
        j = j + 1;
    }
    proof {
        assert(headers.deep_view() =~= hdr);
    }
    let mut records: Vec<Vec<Vec<char>>> = Vec::new();
    let mut hline: Vec<Vec<char>> = Vec::new();
    let mut t: usize = 0;
    while t < headers.len()
        invariant
            0 <= t <= headers@.len(),
            headers.deep_view() == hdr,
            hline.deep_view() =~= hdr.take(t as int),
        decreases headers@.len() - t,
    {
        let ghost before = hline.deep_view();
        hline.push(crate::text::string_to_chars(&headers[t]));
        proof {
            assert(headers.deep_view()[t as int] == headers@[t as int]@);
            assert(hline.deep_view() =~~= before.push(hdr[t as int]));
            assert(hline.deep_view() =~= hdr.take(t + 1));
        }
        t = t + 1;
    }
    proof {
        assert(hline.deep_view() =~= hdr);
    }
    records.push(hline);
    let ghost body = Seq::new(rows@.len(), |i: int| row_cells(hdr, rows@[i]));
    let mut i: usize = 0;
    while i < rows.len()
        invariant
            0 <= i <= rows@.len(),
            rows@.len() > 0,
            hdr == rows@[0].key_seq(),
            headers.deep_view() == hdr,
            forall|m: int| 0 <= m < rows@.len() ==> (#[trigger] rows@[m]).wf(),
            body == Seq::new(rows@.len(), |m: int| row_cells(hdr, rows@[m])),
            records.deep_view() =~= seq![hdr] + body.take(i as int),
        decreases rows@.len() - i,
    {
        let row = &rows[i];
        let mut cells: Vec<Vec<char>> = Vec::new();
        let mut c: usize = 0;
        while c < headers.len()
            invariant
                0 <= c <= headers@.len(),
                headers.deep_view() == hdr,
                row == rows@[i as int],
                0 <= i < rows@.len(),
                (#[trigger] rows@[i as int]).wf(),
                cells.deep_view() =~= row_cells(hdr, rows@[i as int]).take(c as int),
            decreases headers@.len() - c,
        {
            let ghost before = cells.deep_view();
            let v = row.get_or_empty(&headers[c]);
            cells.push(crate::text::string_to_chars(&v));
            proof {
                assert(headers.deep_view()[c as int] == headers@[c as int]@);
                assert(v@ == row_cells(hdr, rows@[i as int])[c as int]);
                assert(cells.deep_view() =~~= before.push(v@));
                assert(cells.deep_view() =~= row_cells(hdr, rows@[i as int]).take(c + 1));
            }
            c = c + 1;
        }
        let ghost recs_before = records.deep_view();
        records.push(cells);
        proof {
            assert(cells.deep_view() =~= row_cells(hdr, rows@[i as int]));
            assert(records.deep_view() =~~= recs_before.push(cells.deep_view()));
            assert(body[i as int] == row_cells(hdr, rows@[i as int]));
            assert(records.deep_view() =~= seq![hdr] + body.take(i + 1));
        }
        i = i + 1;
    }
    proof {
        assert(body.take(body.len() as int) =~= body);
        assert(records.deep_view() =~= out_records(rows@));
    }
    let out = emit_csv(&records);
    Some(chars_to_string(&out))
}

/// What a successful load has produced: one well-formed row per data
/// record, each with a unique non-empty `id`; with duplicate-free headers,
/// exactly the parsed cells, ids kept if and only if they were non-empty
/// and not already taken; and the rewritten text exactly when something
/// was assigned.
pub open spec fn load_ok_post(
    recs: Seq<Seq<Seq<char>>>,
    rows: Seq<CsvRow>,
    rewritten: Option<Seq<char>>,
) -> bool {
    let hdr = recs[0];
    let idx = find_key(hdr, id_key());
    let has_id = idx >= 0;
    &&& rows.len() == recs.len() - 1
    &&& forall|i: int| 0 <= i < rows.len() ==> (#[trigger] rows[i]).wf()
    &&& forall|i: int|
        0 <= i < rows.len() ==> (#[trigger] rows[i]).has_key(id_key()) && rows[i].spec_get(
            id_key(),
        ).len() > 0
    &&& forall|i: int, j: int|
        0 <= i < j < rows.len() ==> (#[trigger] rows[i]).spec_get(id_key()) != (
        #[trigger] rows[j]).spec_get(id_key())
    &&& (distinct_seqs(hdr) && has_id ==> {
        &&& forall|i: int| 0 <= i < rows.len() ==> (#[trigger] rows[i]).key_seq() == hdr
        &&& forall|i: int, j: int|
            0 <= i < rows.len() && 0 <= j < hdr.len() && j != idx ==> (
            #[trigger] rows[i].val_seq()[j]) == recs[i + 1][j]
        &&& forall|i: int|
            0 <= i < rows.len() ==> ((#[trigger] rows[i].val_seq()[idx]) == recs[i + 1][idx] <==> (
            recs[i + 1][idx].len() > 0 && (forall|j: int|
                0 <= j < i ==> rows[j].val_seq()[idx] != recs[i + 1][idx])))
        &&& forall|i: int|
            0 <= i < rows.len() ==> ((#[trigger] rows[i].val_seq()[idx]) == recs[i + 1][idx]
                || rows[i].val_seq()[idx].len() >= 36)
        &&& (rewritten is Some <==> exists|i: int|
            0 <= i < rows.len() && (#[trigger] rows[i].val_seq()[idx]) != recs[i + 1][idx])
    })
    &&& (distinct_seqs(hdr) && !has_id ==> {
        &&& forall|i: int|
            0 <= i < rows.len() ==> (#[trigger] rows[i]).key_seq() == seq![id_key()] + hdr
        &&& forall|i: int, j: int|
            0 <= i < rows.len() && 0 <= j < hdr.len() ==> (#[trigger] rows[i].val_seq()[j + 1])
                == recs[i + 1][j]
        &&& forall|i: int|
            0 <= i < rows.len() ==> (#[trigger] rows[i].val_seq()[0]).len() >= 36
        &&& (rewritten is Some <==> rows.len() > 0)
    })
    &&& (rewritten matches Some(w) ==> rows.len() > 0 && w == emit_records(out_records(rows)))
}

/// Whether some data record disagrees with the header row's width.
pub open spec fn ragged(recs: Seq<Seq<Seq<char>>>) -> bool {
    exists|i: int| 1 <= i < recs.len() && (#[trigger] recs[i]).len() != recs[0].len()
}

/// A loaded table, and the file's new text when ids had to be assigned.
pub struct CsvLoad {
    /// The table's rows, each carrying a unique non-empty `id`.
    pub rows: Vec<CsvRow>,
    /// The text to write back over the file, if anything changed.
    pub rewritten: Option<String>,
}

/// The view of an optional string.
pub open spec fn opt_str_view(o: Option<String>) -> Option<Seq<char>> {
    match o {
        Some(s) => Some(s@),
        None => None,
    }
}

/// Load a CSV file's contents, enforcing that every row has a unique
/// non-empty `id`: a missing `id` column is inserted first, and missing or
/// duplicated values are replaced by fresh identifiers. When anything was
/// assigned, the text to write back is returned too.
pub fn load_csv_with_ids(content: &str) -> (r: Result<CsvLoad, CsvError>)
    ensures
        r matches Err(CsvError::NoHeaders) <==> parse_records(content@).len() == 0,
        r matches Err(CsvError::Csv(m)) ==> ragged(parse_records(content@)),
        ragged(parse_records(content@)) ==> r matches Err(CsvError::Csv(m)),
        r is Ok <==> parse_records(content@).len() > 0 && !ragged(parse_records(content@)),
        r matches Ok(out) ==> load_ok_post(
            parse_records(content@),
            out.rows@,
            opt_str_view(out.rewritten),
        ),
{
    let chars = str_to_chars(content);
    let recs = parse_csv_chars(&chars);
    let ghost rm = parse_records(content@);
    proof {
        assert(recs.deep_view() == rm);
        assert(recs@.len() == rm.len());
    }
    if recs.len() == 0 {
        return Err(CsvError::NoHeaders);
    }
    let headers = cells_to_strings(&recs[0]);
    proof {
        assert(headers.deep_view() == rm[0]);
    }
    let mut i: usize = 1;
    while i < recs.len()
        invariant
            1 <= i <= recs@.len(),
            rm == parse_records(content@),
            recs.deep_view() == rm,
            recs@.len() == rm.len(),
            headers.deep_view() == rm[0],
            headers@.len() == rm[0].len(),
            forall|j: int| 1 <= j < i ==> (#[trigger] rm[j]).len() == rm[0].len(),
        decreases recs@.len() - i,
    {
        if recs[i].len() != headers.len() {
            proof {
                assert(rm[i as int].len() == recs@[i as int].deep_view().len());
                assert((#[trigger] rm[i as int]).len() != rm[0].len());
                assert(ragged(rm));
            }
            return Err(
                CsvError::Csv(String::from_str("record does not match the header column count")),
            );
        }
        proof {
            assert(rm[i as int].len() == recs@[i as int].deep_view().len());
        }
        i = i + 1;
    }
    proof {
        assert(!ragged(rm));
    }
    let idk = id_string();
    let has_id = match find_string(&headers, &idk) {
        Some(_) => true,
        None => false,
    };
    let mut rows: Vec<CsvRow> = Vec::new();
    let mut t: usize = 1;
    while t < recs.len()
        invariant
            1 <= t <= recs@.len(),
            rm == parse_records(content@),
            recs.deep_view() == rm,
            recs@.len() == rm.len(),
            headers.deep_view() == rm[0],
            headers@.len() == rm[0].len(),
            forall|j: int| 1 <= j < rm.len() ==> (#[trigger] rm[j]).len() == rm[0].len(),
            rows@.len() == t - 1,
            forall|j: int| 0 <= j < rows@.len() ==> (#[trigger] rows@[j]).wf(),
            forall|j: int, k: Seq<char>|
                0 <= j < rows@.len() ==> ((#[trigger] rows@[j].has_key(k)) <==> rm[0].contains(k)),
            distinct_seqs(rm[0]) ==> forall|j: int|
                0 <= j < rows@.len() ==> (#[trigger] rows@[j]).key_seq() == rm[0]
                    && rows@[j].val_seq() == rm[j + 1],
        decreases recs@.len() - t,
    {
        let cells = cells_to_strings(&recs[t]);
        proof {
            assert(cells.deep_view() == rm[t as int]);
            assert(cells@.len() == rm[t as int].len());
        }
        let row = build_row(&headers, &cells);
        rows.push(row);
        t = t + 1;
    }
    let mut used: Vec<String> = Vec::new();
    if has_id {
        let mut u: usize = 0;
        while u < rows.len()
            invariant
                0 <= u <= rows@.len(),
                idk@ == id_key(),
                forall|j: int| 0 <= j < rows@.len() ==> (#[trigger] rows@[j]).wf(),
                forall|j: int|
                    0 <= j < u && (#[trigger] rows@[j]).has_key(id_key()) && rows@[j].spec_get(
                        id_key(),
                    ).len() > 0 ==> used.deep_view().contains(rows@[j].spec_get(id_key())),
            decreases rows@.len() - u,
        {
            let ghost used_before = used.deep_view();
            match rows[u].get(&idk) {
                Some(v) => {
                    if !str_is_empty(v) {
                        used.push(v.clone());
                        proof {
                            assert(used.deep_view() =~~= used_before.push(
                                rows@[u as int].spec_get(id_key()),
                            ));
                            assert(forall|x: Seq<char>|
                                used_before.contains(x) ==> used.deep_view().contains(x)) by {
                                assert(forall|m: int|
                                    0 <= m < used_before.len() ==> used.deep_view()[m]
                                        == used_before[m]);
                            }
                            assert(used.deep_view()[used.deep_view().len() - 1] == rows@[
                                u as int
                            ].spec_get(id_key()));
                        }
                    }
                },
                None => {},
            }
            u = u + 1;
        }
    }
    proof {
        lemma_find_key(rm[0], id_key());
        if has_id {
            assert(forall|j: int|
                0 <= j < rows@.len() ==> (#[trigger] rows@[j]).has_key(id_key()));
        } else {
            assert(forall|j: int|
                0 <= j < rows@.len() ==> !(#[trigger] rows@[j]).has_key(id_key()));
        }
    }
    let ghost rows_before = rows@;
    let changed = assign_ids(&mut rows, has_id, &used);
    let rewritten = if changed {
        write_csv(&rows)
    } else {
        None
    };
    let out = CsvLoad { rows, rewritten };
    proof {
        let hdr = rm[0];
        let idx = find_key(hdr, id_key());
        if distinct_seqs(hdr) && has_id {
            assert forall|i2: int, j2: int|
                0 <= i2 < out.rows@.len() && 0 <= j2 < hdr.len() && j2 != idx implies (
            #[trigger] out.rows@[i2].val_seq()[j2]) == rm[i2 + 1][j2] by {
                assert(rows_before[i2].key_seq() == hdr);
                assert(rows_before[i2].val_seq() == rm[i2 + 1]);
            }
            assert forall|i2: int| 0 <= i2 < out.rows@.len() implies ((
            #[trigger] out.rows@[i2].val_seq()[idx]) == rm[i2 + 1][idx] <==> (rm[i2 + 1][idx].len()
                > 0 && (forall|j2: int|
                0 <= j2 < i2 ==> out.rows@[j2].val_seq()[idx] != rm[i2 + 1][idx]))) by {
                assert(rows_before[i2].val_seq() == rm[i2 + 1]);
                assert(rows_before[i2].spec_get(id_key()) == rm[i2 + 1][idx]);
                assert(forall|j2: int|
                    0 <= j2 < out.rows@.len() ==> (#[trigger] out.rows@[j2]).spec_get(id_key())
                        == out.rows@[j2].val_seq()[idx]);
            }
        }
        if distinct_seqs(hdr) && !has_id {
            assert forall|i2: int, j2: int|
                0 <= i2 < out.rows@.len() && 0 <= j2 < hdr.len() implies (
            #[trigger] out.rows@[i2].val_seq()[j2 + 1]) == rm[i2 + 1][j2] by {
                assert(rows_before[i2].val_seq() == rm[i2 + 1]);
                assert(out.rows@[i2].val_seq().drop_first() == rows_before[i2].val_seq());
                assert(out.rows@[i2].val_seq()[j2 + 1] == out.rows@[i2].val_seq().drop_first()[j2]);
            }
        }
    }
    Ok(out)
}

/// A table as the loader hands it out: at least one row, every row
/// well-formed with the same columns, an `id` column present, and ids
/// non-empty and pairwise distinct.
pub open spec fn loaded_table(rows: Seq<CsvRow>) -> bool {
    &&& rows.len() >= 1
    &&& forall|i: int| 0 <= i < rows.len() ==> (#[trigger] rows[i]).wf()
    &&& forall|i: int| 0 <= i < rows.len() ==> (#[trigger] rows[i]).key_seq() == rows[0].key_seq()
    &&& find_key(rows[0].key_seq(), id_key()) >= 0
    &&& forall|i: int| 0 <= i < rows.len() ==> (#[trigger] rows[i]).spec_get(id_key()).len() > 0
    &&& forall|i: int, j: int|
        0 <= i < j < rows.len() ==> (#[trigger] rows[i]).spec_get(id_key()) != (
        #[trigger] rows[j]).spec_get(id_key())
}

/// In a loaded table, every identifier written out is read back unchanged:
/// the keep-or-assign policy keeps each one.
proof fn lemma_round_trip_ids(
    rows: Seq<CsvRow>,
    rows2: Seq<CsvRow>,
    rewritten2: Option<Seq<char>>,
    i: int,
)
    requires
        loaded_table(rows),
        load_ok_post(out_records(rows), rows2, rewritten2),
        distinct_seqs(rows[0].key_seq()),
        forall|m: int, j: int|
            0 <= m < rows.len() && 0 <= j < rows[0].key_seq().len() ==> (#[trigger] out_records(
                rows,
            )[m + 1][j]) == rows[m].val_seq()[j],
        0 <= i < rows2.len(),
    ensures
        rows2[i].val_seq()[find_key(rows[0].key_seq(), id_key())] == rows[i].val_seq()[find_key(
            rows[0].key_seq(),
            id_key(),
        )],
    decreases i,
{
    let hdr = rows[0].key_seq();
    let idx = find_key(hdr, id_key());
    let recs = out_records(rows);
    lemma_find_key(hdr, id_key());
    assert(rows2.len() == rows.len());
    assert forall|m: int| 0 <= m < rows.len() implies (#[trigger] rows[m]).spec_get(id_key())
        == rows[m].val_seq()[idx] by {
        assert(rows[m].key_seq() == hdr);
    }
    assert(recs[i + 1][idx] == rows[i].val_seq()[idx]);
    assert(recs[i + 1][idx].len() > 0);
    assert forall|j: int| 0 <= j < i implies rows2[j].val_seq()[idx] != recs[i + 1][idx] by {
        lemma_round_trip_ids(rows, rows2, rewritten2, j);
        assert(rows2[j].val_seq()[idx] == rows[j].val_seq()[idx]);
        assert(rows[j].spec_get(id_key()) != rows[i].spec_get(id_key()));
    }
    assert(rows2[i].val_seq()[idx] == recs[i + 1][idx]);
}

/// Writing a loaded table out and loading the text back yields the same
/// table, and the second load rewrites nothing: the store's round trip is
/// the identity, and a clean file is never touched again.
pub proof fn lemma_csv_round_trip(rows: Seq<CsvRow>, rows2: Seq<CsvRow>, rewritten2: Option<Seq<char>>)
    requires
        loaded_table(rows),
        load_ok_post(parse_records(emit_records(out_records(rows))), rows2, rewritten2),
    ensures
        rows2.len() == rows.len(),
        forall|i: int|
            0 <= i < rows.len() ==> (#[trigger] rows2[i]).key_seq() == rows[i].key_seq() && rows2[
                i
            ].val_seq() == rows[i].val_seq(),
        rewritten2 is None,
{
    let hdr = rows[0].key_seq();
    let idx = find_key(hdr, id_key());
    let recs = out_records(rows);
    lemma_find_key(hdr, id_key());
    assert(hdr.len() >= 1);
    assert(recs[0] == hdr);
    assert forall|m: int| 0 <= m < recs.len() implies crate::csvfmt::nonempty_record(
        #[trigger] recs[m],
    ) by {
        if m >= 1 {
            assert(recs[m] == row_cells(hdr, rows[m - 1]));
        }
    }
    crate::csvfmt::lemma_emit_parse_round(recs);
    assert(parse_records(emit_records(recs)) == recs);
    assert(distinct_seqs(hdr)) by {
        assert(rows[0].wf());
    }
    assert forall|m: int, j: int|
        0 <= m < rows.len() && 0 <= j < hdr.len() implies (#[trigger] recs[m + 1][j]) == rows[
        m
    ].val_seq()[j] by {
        assert(recs[m + 1] == row_cells(hdr, rows[m]));
        lemma_find_key_distinct(hdr, j);
        assert(rows[m].key_seq() == hdr);
        assert(rows[m].has_key(hdr[j]));
        assert(rows[m].spec_get(hdr[j]) == rows[m].val_seq()[j]);
    }
    assert(rows2.len() == rows.len());
    assert forall|m: int| 0 <= m < rows.len() implies (#[trigger] rows2[m]).val_seq() == rows[
        m
    ].val_seq() by {
        assert(rows2[m].key_seq() == hdr);
        assert(rows2[m].wf());
        assert(rows[m].wf());
        assert(rows[m].key_seq() == hdr);
        assert(load_ok_post(out_records(rows), rows2, rewritten2));
        lemma_round_trip_ids(rows, rows2, rewritten2, m);
        assert forall|j: int| 0 <= j < hdr.len() implies rows2[m].val_seq()[j] == rows[
            m
        ].val_seq()[j] by {
            if j != idx {
                assert(rows2[m].val_seq()[j] == recs[m + 1][j]);
            }
        }
        assert(rows2[m].val_seq() =~= rows[m].val_seq());
    }
    assert(rewritten2 is None) by {
        if rewritten2 is Some {
            let w = choose|w: int|
                0 <= w < rows2.len() && (#[trigger] rows2[w].val_seq()[idx]) != recs[w + 1][idx];
            assert(rows2[w].val_seq() == rows[w].val_seq());
        }
    }
}

/// The new name for `k` under the rename list; the last matching entry
/// wins, and an unmentioned name is unchanged.
pub open spec fn rename_of(renames: Seq<(Seq<char>, Seq<char>)>, k: Seq<char>) -> Seq<char>
    decreases renames.len(),
{
    if renames.len() == 0 {
        k
    } else if renames.last().0 == k {
        renames.last().1
    } else {
        rename_of(renames.drop_last(), k)
    }
}

/// The new name for `key`: the last rename entry naming it, or itself.
fn apply_rename(renames: &Vec<(String, String)>, key: &String) -> (r: String)
    ensures
        r@ == rename_of(renames.deep_view(), key@),
{
    let mut out = key.clone();
    let mut i: usize = 0;
    while i < renames.len()
        invariant
            0 <= i <= renames@.len(),
            out@ == rename_of(renames.deep_view().take(i as int), key@),
        decreases renames@.len() - i,
    {
        if renames[i].0 == *key {
            out = renames[i].1.clone();
        }
        proof {
            assert(renames.deep_view()[i as int] == (renames@[i as int].0@, renames@[
                i as int
            ].1@));
            assert(renames.deep_view().take(i + 1).last() == renames.deep_view()[i as int]);
            assert(renames.deep_view().take(i + 1).drop_last() =~= renames.deep_view().take(
                i as int,
            ));
        }
        i = i + 1;
    }
    proof {
        assert(renames.deep_view().take(renames.deep_view().len() as int) =~= renames.deep_view());
    }
    out
}

/// One row with the listed columns dropped: every other column keeps its
/// relative position and value; listed names the row lacks change
/// nothing.
pub fn remove_columns_row(row: &CsvRow, columns: &Vec<String>) -> (r: CsvRow)
    requires
        row.wf(),
    ensures
        r.wf(),
        r.key_seq() == row.key_seq().filter(
            |k: Seq<char>| !columns.deep_view().contains(k),
        ),
        forall|k: Seq<char>|
            #[trigger] r.has_key(k) <==> (row.has_key(k) && !columns.deep_view().contains(k)),
        forall|k: Seq<char>| #[trigger] r.has_key(k) ==> r.spec_get(k) == row.spec_get(k),
{
    reveal(Seq::filter);
    let ghost pred = |k: Seq<char>| !columns.deep_view().contains(k);
    let mut nr = CsvRow::new();
    let mut j: usize = 0;
    proof {
        assert(row.key_seq().take(0).filter(pred) =~= Seq::<Seq<char>>::empty());
        assert(nr.key_seq() =~= row.key_seq().take(0).filter(pred));
    }
    while j < row.len()
        invariant
            0 <= j <= row.key_seq().len(),
            row.wf(),
            pred == (|k: Seq<char>| !columns.deep_view().contains(k)),
            nr.wf(),
            nr.key_seq() == row.key_seq().take(j as int).filter(pred),
            forall|k: Seq<char>|
                #[trigger] nr.has_key(k) ==> row.key_seq().take(j as int).contains(k),
            forall|k: Seq<char>|
                #[trigger] nr.has_key(k) <==> (row.key_seq().take(j as int).contains(k)
                    && !columns.deep_view().contains(k)),
            forall|k: Seq<char>|
                #[trigger] nr.has_key(k) ==> row.has_key(k) && nr.spec_get(k) == row.spec_get(k),
        decreases row.key_seq().len() - j,
    {
        let ghost nr_before = nr;
        let k = row.key_at(j).clone();
        let ghost kj = row.key_seq()[j as int];
        proof {
            reveal(Seq::filter);
            assert(row.key_seq().take(j + 1).drop_last() =~= row.key_seq().take(j as int));
            assert(row.key_seq().take(j + 1).last() == kj);
            if nr_before.has_key(kj) {
                assert(row.key_seq().take(j as int).contains(kj));
                let w = choose|w: int|
                    0 <= w < j && #[trigger] row.key_seq().take(j as int)[w] == kj;
                assert(row.key_seq()[w] == row.key_seq()[j as int]);
                assert(false);
            }
            lemma_find_key(row.key_seq(), kj);
            crate::store::lemma_find_key_distinct(row.key_seq(), j as int);
        }
        if contains_string(columns, &k) {
            proof {
                assert(nr.key_seq() =~= row.key_seq().take(j + 1).filter(pred));
                assert forall|k2: Seq<char>| #[trigger]
                    nr.has_key(k2) <==> (row.key_seq().take(j + 1).contains(k2)
                        && !columns.deep_view().contains(k2)) by {
                    if row.key_seq().take(j + 1).contains(k2) && !columns.deep_view().contains(
                        k2,
                    ) {
                        let w = choose|w: int|
                            0 <= w < j + 1 && #[trigger] row.key_seq().take(j + 1)[w] == k2;
                        assert(w < j);
                        assert(row.key_seq().take(j as int)[w] == k2);
                    }
                    if nr.has_key(k2) {
                        let w = choose|w: int|
                            0 <= w < j && #[trigger] row.key_seq().take(j as int)[w] == k2;
                        assert(row.key_seq().take(j + 1)[w] == k2);
                    }
                }
            }
        } else {
            let v = row.val_at(j).clone();
            nr.insert(k, v);
            proof {
                assert(nr.key_seq() =~= row.key_seq().take(j + 1).filter(pred));
                assert(nr.spec_get(kj) == row.val_seq()[j as int]) by {
                    lemma_find_key_push(nr_before.key_seq(), kj, kj);
                    assert(find_key(nr.key_seq(), kj) == nr_before.key_seq().len());
                }
                assert(row.spec_get(kj) == row.val_seq()[j as int]);
                assert forall|k2: Seq<char>| #[trigger]
                    nr.has_key(k2) <==> (row.key_seq().take(j + 1).contains(k2)
                        && !columns.deep_view().contains(k2)) by {
                    lemma_find_key_push(nr_before.key_seq(), kj, k2);
                    if k2 == kj {
                        assert(row.key_seq().take(j + 1)[j as int] == kj);
                    } else {
                        if row.key_seq().take(j + 1).contains(k2)
                            && !columns.deep_view().contains(k2) {
                            let w = choose|w: int|
                                0 <= w < j + 1 && #[trigger] row.key_seq().take(j + 1)[w] == k2;
                            assert(w < j);
                            assert(row.key_seq().take(j as int)[w] == k2);
                        }
                        if nr_before.has_key(k2) {
                            let w = choose|w: int|
                                0 <= w < j && #[trigger] row.key_seq().take(j as int)[w] == k2;
                            assert(row.key_seq().take(j + 1)[w] == k2);
                        }
                    }
                }
                assert forall|k2: Seq<char>| #[trigger] nr.has_key(k2) implies row.has_key(k2)
                    && nr.spec_get(k2) == row.spec_get(k2) by {
                    lemma_find_key_push(nr_before.key_seq(), kj, k2);
                    if k2 != kj {
                        assert(nr_before.has_key(k2));
                        assert(find_key(nr.key_seq(), k2) == find_key(nr_before.key_seq(), k2));
                        lemma_find_key(nr_before.key_seq(), k2);
                    }
                }
                assert forall|k2: Seq<char>| #[trigger]
                    nr.has_key(k2) implies row.key_seq().take(j + 1).contains(k2) by {
                }
            }
        }
        j = j + 1;
    }
    proof {
        assert(row.key_seq().take(row.key_seq().len() as int) =~= row.key_seq());
        assert forall|k: Seq<char>| #[trigger] row.has_key(k) implies row.key_seq().contains(
            k,
        ) by {
            lemma_find_key(row.key_seq(), k);
        }
        assert forall|k: Seq<char>| #[trigger] row.key_seq().contains(k) implies row.has_key(
            k,
        ) by {
            let w = choose|w: int| 0 <= w < row.key_seq().len() && row.key_seq()[w] == k;
            lemma_find_key_distinct(row.key_seq(), w);
        }
    }
    nr
}

/// One row with its columns renamed: each column named in the list takes
/// its new name (the last entry for a name wins), everything else keeps
/// its name; positions and values are kept whenever the renamed names
/// stay distinct, and names absent from the row change nothing.
pub fn rename_columns_row(row: &CsvRow, renames: &Vec<(String, String)>) -> (r: CsvRow)
    requires
        row.wf(),
    ensures
        r.wf(),
        distinct_seqs(
            row.key_seq().map_values(|k: Seq<char>| rename_of(renames.deep_view(), k)),
        ) ==> r.key_seq() == row.key_seq().map_values(
            |k: Seq<char>| rename_of(renames.deep_view(), k),
        ) && r.val_seq() == row.val_seq(),
{
    let ghost mapped = row.key_seq().map_values(
        |k: Seq<char>| rename_of(renames.deep_view(), k),
    );
    let mut nr = CsvRow::new();
    let mut j: usize = 0;
    proof {
        assert(nr.key_seq() =~= mapped.take(0));
        assert(nr.val_seq() =~= row.val_seq().take(0));
    }
    while j < row.len()
        invariant
            0 <= j <= row.key_seq().len(),
            row.wf(),
            mapped == row.key_seq().map_values(
                |k: Seq<char>| rename_of(renames.deep_view(), k),
            ),
            mapped.len() == row.key_seq().len(),
            nr.wf(),
            distinct_seqs(mapped) ==> nr.key_seq() == mapped.take(j as int) && nr.val_seq()
                == row.val_seq().take(j as int),
        decreases row.key_seq().len() - j,
    {
        let ghost nr_before = nr;
        let nk = apply_rename(renames, row.key_at(j));
        let v = row.val_at(j).clone();
        proof {
            assert(nk@ == mapped[j as int]);
            if distinct_seqs(mapped) {
                lemma_find_key(nr_before.key_seq(), nk@);
                if nr_before.has_key(nk@) {
                    let f = find_key(nr_before.key_seq(), nk@);
                    assert(mapped.take(j as int)[f] == mapped[j as int]);
                    assert(mapped[f] == mapped[j as int]);
                    assert(false);
                }
            }
        }
        nr.insert(nk, v);
        proof {
            if distinct_seqs(mapped) {
                assert(nr.key_seq() =~= mapped.take(j + 1));
                assert(nr.val_seq() =~= row.val_seq().take(j + 1));
            }
        }
        j = j + 1;
    }
    proof {
        if distinct_seqs(mapped) {
            assert(mapped.take(mapped.len() as int) =~= mapped);
            assert(row.val_seq().take(row.val_seq().len() as int) =~= row.val_seq());
        }
    }
    nr
}

/// Every element of a filtered sequence occurs in the original.
proof fn lemma_filter_source(s: Seq<Seq<char>>, pred: spec_fn(Seq<char>) -> bool, j: int)
    requires
        0 <= j < s.filter(pred).len(),
    ensures
        s.contains(s.filter(pred)[j]),
    decreases s.len(),
{
    reveal(Seq::filter);
    if s.len() > 0 {
        let f = s.filter(pred);
        let fd = s.drop_last().filter(pred);
        if pred(s.last()) && j == fd.len() {
            assert(f[j] == s.last());
            assert(s[s.len() - 1] == s.last());
        } else {
            lemma_filter_source(s.drop_last(), pred, j);
            let w = choose|w: int| 0 <= w < s.drop_last().len() && #[trigger] s.drop_last()[w]
                == fd[j];
            assert(s[w] == f[j]);
        }
    }
}

/// A table's records with the header names renamed: every data record is
/// unchanged.
pub open spec fn renamed_records(
    recs: Seq<Seq<Seq<char>>>,
    renames: Seq<(Seq<char>, Seq<char>)>,
) -> Seq<Seq<Seq<char>>> {
    seq![recs[0].map_values(|k: Seq<char>| rename_of(renames, k))] + recs.drop_first()
}

/// Rename columns in CSV file contents; each entry maps an old name to a
/// new one, names not present are silently skipped. Returns the new
/// contents, or nothing when there is nothing to do. On a clean table
/// whose renamed header stays duplicate-free, the output is exactly the
/// input with the header renamed.
pub fn rename_csv_columns(content: &str, renames: &Vec<(String, String)>) -> (r: Result<
    Option<String>,
    CsvError,
>)
    ensures
        renames@.len() == 0 ==> (r matches Ok(o) && o is None),
        renames@.len() > 0 ==> ((r matches Err(CsvError::NoHeaders)) <==> parse_records(
            content@,
        ).len() == 0),
        renames@.len() > 0 ==> ((r matches Err(CsvError::Csv(m))) <==> ragged(
            parse_records(content@),
        )),
        renames@.len() > 0 ==> (r is Ok <==> parse_records(content@).len() > 0 && !ragged(
            parse_records(content@),
        )),
        renames@.len() > 0 && parse_records(content@).len() > 0 && !ragged(parse_records(content@))
            ==> (r matches Ok(o) && (o is Some <==> parse_records(content@).len() > 1)),
        renames@.len() > 0 && clean_table(parse_records(content@)) && parse_records(
            content@,
        ).len() > 1 && distinct_seqs(
            parse_records(content@)[0].map_values(
                (|k: Seq<char>| rename_of(renames.deep_view(), k)),
            ),
        ) ==> (r matches Ok(o) && o matches Some(w) && w@ == emit_records(
            renamed_records(parse_records(content@), renames.deep_view()),
        )),
{
    if renames.len() == 0 {
        return Ok(None);
    }
    let ghost rm = parse_records(content@);
    let ghost rn = renames.deep_view();
    let ghost mapped_hdr = rm[0].map_values(|k: Seq<char>| rename_of(rn, k));
    let ghost cond = clean_table(rm) && distinct_seqs(mapped_hdr);
    let loaded = match load_csv_with_ids(content) {
        Ok(l) => l,
        Err(e) => {
            return Err(e);
        },
    };
    proof {
        if cond {
            lemma_clean_rows_verbatim(rm, loaded.rows@, opt_str_view(loaded.rewritten));
        }
    }
    if loaded.rows.len() == 0 {
        return Ok(None);
    }
    let mut out: Vec<CsvRow> = Vec::new();
    let mut i: usize = 0;
    while i < loaded.rows.len()
        invariant
            0 <= i <= loaded.rows@.len(),
            forall|j: int| 0 <= j < loaded.rows@.len() ==> (#[trigger] loaded.rows@[j]).wf(),
            out@.len() == i,
            forall|j: int| 0 <= j < out@.len() ==> (#[trigger] out@[j]).wf(),
            rm == parse_records(content@),
            rn == renames.deep_view(),
            mapped_hdr == rm[0].map_values(|k: Seq<char>| rename_of(rn, k)),
            cond == (clean_table(rm) && distinct_seqs(mapped_hdr)),
            loaded.rows@.len() + 1 >= rm.len(),
            cond ==> loaded.rows@.len() == rm.len() - 1,
            cond ==> forall|j: int|
                0 <= j < loaded.rows@.len() ==> (#[trigger] loaded.rows@[j]).key_seq() == rm[0]
                    && loaded.rows@[j].val_seq() == rm[j + 1],
            cond ==> forall|j: int|
                0 <= j < out@.len() ==> (#[trigger] out@[j]).key_seq() == mapped_hdr && out@[j]
                    .val_seq() == rm[j + 1],
        decreases loaded.rows@.len() - i,
    {
        let row = &loaded.rows[i];
        let nr = rename_columns_row(row, renames);
        proof {
            if cond {
                assert(row.key_seq() == rm[0]);
                assert(row.key_seq().map_values(|k: Seq<char>| rename_of(rn, k)) == mapped_hdr);
                assert(nr.key_seq() == mapped_hdr && nr.val_seq() == rm[i + 1]);
            }
        }
        out.push(nr);
        i = i + 1;
    }
    let w_opt = write_csv(&out);
    proof {
        if cond && rm.len() > 1 {
            assert(out@.len() == rm.len() - 1);
            let orecs = out_records(out@);
            assert(orecs[0] == mapped_hdr);
            assert forall|j: int| 0 <= j < out@.len() implies #[trigger] orecs[j + 1] == rm[j
                + 1] by {
                lemma_row_cells_self(out@[j]);
                assert(row_cells(out@[0].key_seq(), out@[j]) == out@[j].val_seq());
            }
            assert(orecs =~= renamed_records(rm, rn));
            assert(w_opt matches Some(w) && w@ == emit_records(renamed_records(rm, rn)));
        }
    }
    match w_opt {
        Some(w) => Ok(Some(w)),
        None => Ok(None),
    }
}

/// A table's records with the listed columns dropped: the header
/// filtered, each data record keeping, in order, the cells of the
/// surviving columns.
pub open spec fn removed_records(
    recs: Seq<Seq<Seq<char>>>,
    columns: Seq<Seq<char>>,
) -> Seq<Seq<Seq<char>>> {
    let hdr = recs[0];
    let nh = hdr.filter(|k: Seq<char>| !columns.contains(k));
    seq![nh] + Seq::new(
        (recs.len() - 1) as nat,
        |i: int| Seq::new(nh.len(), |j: int| recs[i + 1][find_key(hdr, nh[j])]),
    )
}

/// Remove columns from CSV file contents; absent names are silently
/// skipped. Returns the new contents, or nothing when there is nothing to
/// do. On a clean table the output is exactly the input with the listed
/// columns dropped from the header and from every record.
pub fn remove_csv_columns(content: &str, columns: &Vec<String>) -> (r: Result<
    Option<String>,
    CsvError,
>)
    ensures
        columns@.len() == 0 ==> (r matches Ok(o) && o is None),
        columns@.len() > 0 ==> ((r matches Err(CsvError::NoHeaders)) <==> parse_records(
            content@,
        ).len() == 0),
        columns@.len() > 0 ==> ((r matches Err(CsvError::Csv(m))) <==> ragged(
            parse_records(content@),
        )),
        columns@.len() > 0 ==> (r is Ok <==> parse_records(content@).len() > 0 && !ragged(
            parse_records(content@),
        )),
        columns@.len() > 0 && parse_records(content@).len() > 0 && !ragged(parse_records(content@))
            ==> (r matches Ok(o) && (o is Some <==> parse_records(content@).len() > 1)),
        columns@.len() > 0 && clean_table(parse_records(content@)) && parse_records(
            content@,
        ).len() > 1 ==> (r matches Ok(o) && o matches Some(w) && w@ == emit_records(
            removed_records(parse_records(content@), columns.deep_view()),
        )),
{
    if columns.len() == 0 {
        return Ok(None);
    }
    let ghost rm = parse_records(content@);
    let ghost cs = columns.deep_view();
    let ghost pred = |k: Seq<char>| !cs.contains(k);
    let ghost nh = rm[0].filter(pred);
    let ghost cond = clean_table(rm);
    let loaded = match load_csv_with_ids(content) {
        Ok(l) => l,
        Err(e) => {
            return Err(e);
        },
    };
    proof {
        if cond {
            lemma_clean_rows_verbatim(rm, loaded.rows@, opt_str_view(loaded.rewritten));
        }
    }
    if loaded.rows.len() == 0 {
        return Ok(None);
    }
    let mut out: Vec<CsvRow> = Vec::new();
    let mut i: usize = 0;
    while i < loaded.rows.len()
        invariant
            0 <= i <= loaded.rows@.len(),
            out@.len() == i,
            forall|j: int| 0 <= j < loaded.rows@.len() ==> (#[trigger] loaded.rows@[j]).wf(),
            forall|j: int| 0 <= j < out@.len() ==> (#[trigger] out@[j]).wf(),
            rm == parse_records(content@),
            cs == columns.deep_view(),
            pred == (|k: Seq<char>| !cs.contains(k)),
            nh == rm[0].filter(pred),
            cond == clean_table(rm),
            cond ==> loaded.rows@.len() == rm.len() - 1,
            cond ==> forall|j: int|
                0 <= j < loaded.rows@.len() ==> (#[trigger] loaded.rows@[j]).key_seq() == rm[0]
                    && loaded.rows@[j].val_seq() == rm[j + 1],
            cond ==> forall|j: int|
                0 <= j < out@.len() ==> (#[trigger] out@[j]).key_seq() == nh && out@[j].val_seq()
                    == Seq::new(nh.len(), |c: int| rm[j + 1][find_key(rm[0], nh[c])]),
        decreases loaded.rows@.len() - i,
    {
        let row = &loaded.rows[i];
        let nr = remove_columns_row(row, columns);
        proof {
            if cond {
                assert(row.key_seq() == rm[0]);
                assert(nr.key_seq() == nh);
                assert forall|c: int| 0 <= c < nh.len() implies #[trigger] nr.val_seq()[c] == rm[
                    i + 1
                ][find_key(rm[0], nh[c])] by {
                    rm[0].lemma_filter_pred(pred, c);
                    lemma_filter_source(rm[0], pred, c);
                    lemma_find_key(rm[0], nh[c]);
                    if find_key(rm[0], nh[c]) < 0 {
                        let w = choose|w: int|
                            0 <= w < rm[0].len() && #[trigger] rm[0][w] == nh[c];
                        assert(false);
                    }
                    assert(row.has_key(nh[c]));
                    assert(nr.has_key(nh[c]));
                    lemma_find_key_distinct(nr.key_seq(), c);
                    assert(nr.spec_get(nh[c]) == nr.val_seq()[c]);
                    assert(nr.spec_get(nh[c]) == row.spec_get(nh[c]));
                    assert(row.spec_get(nh[c]) == row.val_seq()[find_key(rm[0], nh[c])]);
                }
                assert(nr.val_seq() =~= Seq::new(
                    nh.len(),
                    |c: int| rm[i + 1][find_key(rm[0], nh[c])],
                ));
            }
        }
        out.push(nr);
        i = i + 1;
    }
    let w_opt = write_csv(&out);
    proof {
        if cond && rm.len() > 1 {
            assert(out@.len() == rm.len() - 1);
            let orecs = out_records(out@);
            assert(orecs[0] == nh);
            assert forall|j: int| 0 <= j < out@.len() implies #[trigger] orecs[j + 1] == removed_records(
                rm,
                cs,
            )[j + 1] by {
                lemma_row_cells_self(out@[j]);
                assert(row_cells(out@[0].key_seq(), out@[j]) == out@[j].val_seq());
            }
            assert(orecs =~= removed_records(rm, cs));
            assert(w_opt matches Some(w) && w@ == emit_records(removed_records(rm, cs)));
        }
    }
    match w_opt {
        Some(w) => Ok(Some(w)),
        None => Ok(None),
    }
}

/// A table whose text needs no fixing: duplicate-free headers with an
/// `id` column, and every record's identifier filled in and unique.
pub open spec fn clean_table(recs: Seq<Seq<Seq<char>>>) -> bool {
    let hdr = recs[0];
    let idx = find_key(hdr, id_key());
    &&& recs.len() > 0
    &&& !ragged(recs)
    &&& distinct_seqs(hdr)
    &&& idx >= 0
    &&& forall|i: int| 1 <= i < recs.len() ==> (#[trigger] recs[i])[idx].len() > 0
    &&& forall|i: int, j: int|
        1 <= i < j < recs.len() ==> (#[trigger] recs[i])[idx] != (#[trigger] recs[j])[idx]
}

/// Loading a clean table keeps every identifier exactly as written.
pub proof fn lemma_clean_load_keeps_ids(
    recs: Seq<Seq<Seq<char>>>,
    rows: Seq<CsvRow>,
    rewritten: Option<Seq<char>>,
    i: int,
)
    requires
        clean_table(recs),
        load_ok_post(recs, rows, rewritten),
        0 <= i < rows.len(),
    ensures
        rows[i].spec_get(id_key()) == recs[i + 1][find_key(recs[0], id_key())],
    decreases i,
{
    let hdr = recs[0];
    let idx = find_key(hdr, id_key());
    lemma_find_key(hdr, id_key());
    assert(rows[i].key_seq() == hdr);
    assert(rows[i].spec_get(id_key()) == rows[i].val_seq()[idx]);
    assert(recs[i + 1][idx].len() > 0);
    assert forall|j: int| 0 <= j < i implies rows[j].val_seq()[idx] != recs[i + 1][idx] by {
        lemma_clean_load_keeps_ids(recs, rows, rewritten, j);
        assert(rows[j].key_seq() == hdr);
        assert(rows[j].val_seq()[idx] == recs[j + 1][idx]);
        assert(recs[j + 1][idx] != recs[i + 1][idx]);
    }
    assert(rows[i].val_seq()[idx] == recs[i + 1][idx]);
}

/// Loading a clean table hands the records back verbatim: every row's
/// columns are the header and its values are its record's cells.
pub proof fn lemma_clean_rows_verbatim(
    recs: Seq<Seq<Seq<char>>>,
    rows: Seq<CsvRow>,
    rewritten: Option<Seq<char>>,
)
    requires
        clean_table(recs),
        load_ok_post(recs, rows, rewritten),
    ensures
        rows.len() == recs.len() - 1,
        forall|i: int|
            0 <= i < rows.len() ==> (#[trigger] rows[i]).key_seq() == recs[0] && rows[i].val_seq()
                == recs[i + 1],
{
    let hdr = recs[0];
    let idx = find_key(hdr, id_key());
    lemma_find_key(hdr, id_key());
    assert forall|i: int| 0 <= i < rows.len() implies (#[trigger] rows[i]).key_seq() == recs[0]
        && rows[i].val_seq() == recs[i + 1] by {
        lemma_clean_load_keeps_ids(recs, rows, rewritten, i);
        assert(rows[i].spec_get(id_key()) == rows[i].val_seq()[idx]);
        assert(rows[i].val_seq()[idx] == recs[i + 1][idx]);
        assert(recs[i + 1].len() == hdr.len());
        assert(rows[i].val_seq() =~= recs[i + 1]);
    }
}

/// The position of the `id` column in a header row.
pub open spec fn id_column_of(hdr: Seq<Seq<char>>) -> int {
    find_key(hdr, id_key())
}

/// Whether some record of a clean table carries this identifier.
pub open spec fn has_row_with_id(recs: Seq<Seq<Seq<char>>>, row_id: Seq<char>) -> bool {
    exists|i: int|
        1 <= i < recs.len() && (#[trigger] recs[i])[find_key(recs[0], id_key())] == row_id
}

/// A well-formed row's cells under its own columns are its values.
pub proof fn lemma_row_cells_self(row: CsvRow)
    requires
        row.wf(),
    ensures
        row_cells(row.key_seq(), row) == row.val_seq(),
{
    assert forall|j: int| 0 <= j < row.key_seq().len() implies row_cells(row.key_seq(), row)[j]
        == row.val_seq()[j] by {
        lemma_find_key_distinct(row.key_seq(), j);
        assert(row.has_key(row.key_seq()[j]));
        assert(row.spec_get(row.key_seq()[j]) == row.val_seq()[j]);
    }
    assert(row_cells(row.key_seq(), row) =~= row.val_seq());
}

/// A clean table with the records carrying this identifier dropped: the
/// header stays, every other record keeps its place.
pub open spec fn without_row(recs: Seq<Seq<Seq<char>>>, row_id: Seq<char>) -> Seq<Seq<Seq<char>>> {
    seq![recs[0]] + recs.drop_first().filter(
        |c: Seq<Seq<char>>| c[id_column_of(recs[0])] != row_id,
    )
}

/// The row-not-found failure, phrased like an input/output error.
fn row_not_found(id: &str) -> (r: CsvError)
    ensures
        r is Io,
{
    let mut msg = String::from_str("row with id '");
    msg.append(id);
    msg.append("' not found");
    CsvError::Io(msg)
}

/// What one insert does to a well-formed row: column `k` now holds `v`,
/// and every other column is untouched.
pub proof fn lemma_insert_effect(pre: CsvRow, post: CsvRow, k: Seq<char>, v: Seq<char>)
    requires
        pre.wf(),
        pre.has_key(k) ==> post.key_seq() == pre.key_seq() && post.val_seq()
            == pre.val_seq().update(find_key(pre.key_seq(), k), v),
        !pre.has_key(k) ==> post.key_seq() == pre.key_seq().push(k) && post.val_seq()
            == pre.val_seq().push(v),
    ensures
        post.has_key(k) && post.spec_get(k) == v,
        forall|k2: Seq<char>| k2 != k ==> (#[trigger] post.has_key(k2) <==> pre.has_key(k2)),
        forall|k2: Seq<char>|
            k2 != k && #[trigger] pre.has_key(k2) ==> post.spec_get(k2) == pre.spec_get(k2),
{
    lemma_find_key(pre.key_seq(), k);
    if pre.has_key(k) {
        assert(post.has_key(k));
        assert(post.spec_get(k) == v);
        assert forall|k2: Seq<char>| k2 != k && #[trigger] pre.has_key(k2) implies post.spec_get(
            k2,
        ) == pre.spec_get(k2) by {
            lemma_find_key(pre.key_seq(), k2);
            assert(pre.key_seq()[find_key(pre.key_seq(), k2)] == k2);
            assert(pre.key_seq()[find_key(pre.key_seq(), k)] == k);
            assert(find_key(pre.key_seq(), k2) != find_key(pre.key_seq(), k));
        }
    } else {
        lemma_find_key_push(pre.key_seq(), k, k);
        assert(post.has_key(k));
        assert(post.spec_get(k) == v);
        assert forall|k2: Seq<char>| k2 != k implies (#[trigger] post.has_key(k2) <==> pre
            .has_key(k2)) by {
            lemma_find_key_push(pre.key_seq(), k, k2);
        }
        assert forall|k2: Seq<char>| k2 != k && #[trigger] pre.has_key(k2) implies post.spec_get(
            k2,
        ) == pre.spec_get(k2) by {
            lemma_find_key(pre.key_seq(), k2);
            lemma_find_key_push(pre.key_seq(), k, k2);
        }
    }
}

/// The record appended for `fields` under a table's header: the fresh
/// identifier in the `id` column, each other column taking the field's
/// value or staying empty.
pub open spec fn appended_cells(recs: Seq<Seq<Seq<char>>>, fields: CsvRow, nid: Seq<char>) -> Seq<
    Seq<char>,
> {
    let hdr = recs[0];
    let idx = id_column_of(hdr);
    Seq::new(
        hdr.len(),
        |j: int|
            if j == idx {
                nid
            } else if fields.has_key(hdr[j]) {
                fields.spec_get(hdr[j])
            } else {
                Seq::<char>::empty()
            },
    )
}

/// Append a new row built from `fields` to CSV file contents, assigning it
/// a fresh identifier. Returns the new contents and the identifier. On a
/// clean table with data the output is exactly the input plus one record,
/// shaped by the header, whose identifier is fresh.
pub fn append_row(content: &str, fields: &CsvRow) -> (r: Result<(String, String), CsvError>)
    requires
        fields.wf(),
    ensures
        (r matches Err(CsvError::NoHeaders)) <==> parse_records(content@).len() == 0,
        (r matches Err(CsvError::Csv(m))) <==> ragged(parse_records(content@)),
        r is Ok <==> parse_records(content@).len() > 0 && !ragged(parse_records(content@)),
        r matches Ok(p) ==> p.1@.len() >= 36,
        clean_table(parse_records(content@)) && parse_records(content@).len() > 1 ==> (r matches
            Ok(p) && p.0@ == emit_records(
            parse_records(content@).push(appended_cells(parse_records(content@), *fields, p.1@)),
        ) && (forall|i: int|
            1 <= i < parse_records(content@).len() ==> (#[trigger] parse_records(content@)[i])[
                id_column_of(parse_records(content@)[0])
            ] != p.1@)),
{
    let ghost rm = parse_records(content@);
    let ghost cond = clean_table(rm) && rm.len() > 1;
    let loaded = match load_csv_with_ids(content) {
        Ok(l) => l,
        Err(e) => {
            return Err(e);
        },
    };
    let mut rows = loaded.rows;
    let ghost rows0 = rows@;
    let ghost rewv = opt_str_view(loaded.rewritten);
    proof {
        if cond {
            lemma_clean_rows_verbatim(rm, rows0, rewv);
            assert forall|j: int| 0 <= j < rows0.len() implies (#[trigger] rows0[j]).spec_get(
                id_key(),
            ) == rm[j + 1][id_column_of(rm[0])] by {
                lemma_clean_load_keeps_ids(rm, rows0, rewv, j);
            }
        }
    }
    let idk = id_string();
    let mut ids: Vec<String> = Vec::new();
    let mut u: usize = 0;
    while u < rows.len()
        invariant
            0 <= u <= rows@.len(),
            rows@ == rows0,
            forall|j: int| 0 <= j < rows@.len() ==> (#[trigger] rows@[j]).wf(),
            forall|j: int| 0 <= j < rows@.len() ==> (#[trigger] rows@[j]).has_key(id_key()),
            idk@ == id_key(),
            cond ==> forall|j: int|
                0 <= j < rows0.len() ==> (#[trigger] rows0[j]).spec_get(id_key()) == rm[j + 1][
                    id_column_of(rm[0])
                ],
            cond ==> ids.deep_view() =~= Seq::new(
                u as nat,
                |m: int| rm[m + 1][id_column_of(rm[0])],
            ),
            !cond ==> ids@.len() >= 0,
        decreases rows@.len() - u,
    {
        let ghost ids_before = ids.deep_view();
        match rows[u].get(&idk) {
            Some(v) => {
                ids.push(v.clone());
                proof {
                    if cond {
                        assert(ids.deep_view() =~~= ids_before.push(rows0[u as int].spec_get(
                            id_key(),
                        )));
                        assert(ids.deep_view() =~= Seq::new(
                            u as nat + 1,
                            |m: int| rm[m + 1][id_column_of(rm[0])],
                        ));
                    }
                }
            },
            None => {},
        }
        u = u + 1;
    }
    let none: Vec<String> = Vec::new();
    let new_id = fresh_row_id(&ids, &none);
    proof {
        if cond {
            assert forall|i: int| 1 <= i < rm.len() implies (#[trigger] rm[i])[id_column_of(
                rm[0],
            )] != new_id@ by {
                if rm[i][id_column_of(rm[0])] == new_id@ {
                    assert(ids.deep_view()[i - 1] == new_id@);
                    assert(ids.deep_view().contains(new_id@));
                }
            }
        }
    }
    let mut nr = CsvRow::new();
    let ghost nr0 = nr;
    nr.insert(idk.clone(), new_id.clone());
    proof {
        lemma_insert_effect(nr0, nr, id_key(), new_id@);
    }
    if rows.len() > 0 {
        let first_len = rows[0].len();
        let mut j: usize = 0;
        while j < first_len
            invariant
                0 <= j <= rows@[0].key_seq().len(),
                first_len == rows@[0].key_seq().len(),
                rows@.len() > 0,
                rows@ == rows0,
                forall|m: int| 0 <= m < rows@.len() ==> (#[trigger] rows@[m]).wf(),
                fields.wf(),
                idk@ == id_key(),
                nr.wf(),
                nr.has_key(id_key()) && nr.spec_get(id_key()) == new_id@,
                cond ==> rows0[0].key_seq() == rm[0],
                cond ==> clean_table(rm),
                cond ==> forall|m: int|
                    0 <= m < j && m != id_column_of(rm[0]) ==> nr.has_key(#[trigger] rm[0][m])
                        && nr.spec_get(rm[0][m]) == (if fields.has_key(rm[0][m]) {
                        fields.spec_get(rm[0][m])
                    } else {
                        Seq::<char>::empty()
                    }),
            decreases first_len - j,
        {
            let k = rows[0].key_at(j).clone();
            let ghost nr_before = nr;
            if !(k == idk) {
                let v = fields.get_or_empty(&k);
                nr.insert(k, v);
                proof {
                    lemma_insert_effect(nr_before, nr, k@, v@);
                    if cond {
                        assert(k@ == rm[0][j as int]);
                        assert forall|m: int|
                            0 <= m < j + 1 && m != id_column_of(rm[0]) implies nr.has_key(
                            #[trigger] rm[0][m],
                        ) && nr.spec_get(rm[0][m]) == (if fields.has_key(rm[0][m]) {
                            fields.spec_get(rm[0][m])
                        } else {
                            Seq::<char>::empty()
                        }) by {
                            if m < j {
                                assert(rm[0][m] != rm[0][j as int]);
                            }
                        }
                    }
                }
            } else {
                proof {
                    if cond {
                        lemma_find_key(rm[0], id_key());
                        lemma_find_key_distinct(rm[0], j as int);
                        assert(rm[0][j as int] == id_key());
                        assert(j == id_column_of(rm[0]));
                    }
                }
            }
            j = j + 1;
        }
    }
    let mut t: usize = 0;
    while t < fields.len()
        invariant
            0 <= t <= fields.key_seq().len(),
            fields.wf(),
            idk@ == id_key(),
            nr.wf(),
            nr.has_key(id_key()) && nr.spec_get(id_key()) == new_id@,
            cond ==> forall|m: int|
                0 <= m < rm[0].len() && m != id_column_of(rm[0]) ==> nr.has_key(
                    #[trigger] rm[0][m],
                ) && nr.spec_get(rm[0][m]) == (if fields.has_key(rm[0][m]) {
                    fields.spec_get(rm[0][m])
                } else {
                    Seq::<char>::empty()
                }),
        decreases fields.key_seq().len() - t,
    {
        let k = fields.key_at(t).clone();
        let already = match nr.find(&k) {
            Some(_) => true,
            None => false,
        };
        let ghost nr_before = nr;
        if !already && !(k == idk) {
            nr.insert(k, fields.val_at(t).clone());
            proof {
                lemma_find_key(nr_before.key_seq(), k@);
                lemma_insert_effect(
                    nr_before,
                    nr,
                    k@,
                    fields.val_seq()[t as int],
                );
                if cond {
                    assert forall|m: int|
                        0 <= m < rm[0].len() && m != id_column_of(rm[0]) implies nr.has_key(
                        #[trigger] rm[0][m],
                    ) && nr.spec_get(rm[0][m]) == (if fields.has_key(rm[0][m]) {
                        fields.spec_get(rm[0][m])
                    } else {
                        Seq::<char>::empty()
                    }) by {
                        assert(nr_before.has_key(rm[0][m]));
                        assert(rm[0][m] != k@);
                    }
                }
            }
        }
        t = t + 1;
    }
    rows.push(nr);
    proof {
        assert(rows@.len() > 0);
        assert(forall|j: int| 0 <= j < rows@.len() ==> (#[trigger] rows@[j]).wf());
    }
    let w_opt = write_csv(&rows);
    proof {
        if cond {
            let hdr = rm[0];
            let idx = id_column_of(hdr);
            lemma_find_key(hdr, id_key());
            assert(rows@[0] == rows0[0]);
            assert(rows@[0].key_seq() == hdr);
            let orecs = out_records(rows@);
            let target = rm.push(appended_cells(rm, *fields, new_id@));
            assert(orecs[0] == hdr);
            assert forall|i: int| 0 <= i < rows@.len() implies #[trigger] orecs[i + 1]
                == target[i + 1] by {
                if i < rows0.len() {
                    assert(rows@[i] == rows0[i]);
                    lemma_row_cells_self(rows0[i]);
                    assert(row_cells(hdr, rows0[i]) == rows0[i].val_seq());
                } else {
                    assert(rows@[i] == nr);
                    assert forall|j2: int| 0 <= j2 < hdr.len() implies #[trigger] row_cells(
                        hdr,
                        nr,
                    )[j2] == appended_cells(rm, *fields, new_id@)[j2] by {
                        if j2 == idx {
                            assert(hdr[j2] == id_key());
                        }
                    }
                    assert(row_cells(hdr, nr) =~= appended_cells(rm, *fields, new_id@));
                }
            }
            assert(orecs =~= target);
            assert(w_opt matches Some(w) && w@ == emit_records(target));
        }
    }
    match w_opt {
        Some(w) => Ok((w, new_id)),
        None => Ok((String::new(), new_id)),
    }
}

/// One row with the given fields written over it: the `id` column keeps
/// its place and value no matter what the fields say, every existing
/// column keeps its position and takes the field's value when one names
/// it, a field the row lacks is appended, and every column no field
/// names keeps its value.
pub fn apply_update_fields(row: &CsvRow, fields: &CsvRow, idk: &String) -> (r: CsvRow)
    requires
        row.wf(),
        fields.wf(),
        idk@ == id_key(),
    ensures
        r.wf(),
        r.has_key(id_key()) == row.has_key(id_key()),
        row.has_key(id_key()) ==> r.spec_get(id_key()) == row.spec_get(id_key()),
        r.key_seq().len() >= row.key_seq().len(),
        forall|j: int|
            0 <= j < row.key_seq().len() ==> #[trigger] r.key_seq()[j] == row.key_seq()[j],
        forall|k: Seq<char>| #[trigger] r.has_key(k) ==> row.has_key(k) || fields.has_key(k),
        forall|k: Seq<char>|
            #[trigger] fields.has_key(k) && k != id_key() ==> r.has_key(k) && r.spec_get(k)
                == fields.spec_get(k),
        forall|k: Seq<char>|
            #[trigger] r.has_key(k) && (k == id_key() || !fields.has_key(k)) ==> row.has_key(k)
                && r.spec_get(k) == row.spec_get(k),
{
    let mut r = row.clone_row();
    let mut t: usize = 0;
    while t < fields.len()
        invariant
            0 <= t <= fields.key_seq().len(),
            row.wf(),
            fields.wf(),
            idk@ == id_key(),
            r.wf(),
            r.has_key(id_key()) == row.has_key(id_key()),
            row.has_key(id_key()) ==> r.spec_get(id_key()) == row.spec_get(id_key()),
            r.key_seq().len() >= row.key_seq().len(),
            forall|j: int|
                0 <= j < row.key_seq().len() ==> #[trigger] r.key_seq()[j] == row.key_seq()[j],
            forall|k: Seq<char>| #[trigger] r.has_key(k) ==> row.has_key(k) || fields.has_key(k),
            forall|k: Seq<char>|
                #[trigger] fields.has_key(k) && k != id_key() && find_key(fields.key_seq(), k)
                    < t ==> r.has_key(k) && r.spec_get(k) == fields.spec_get(k),
            forall|k: Seq<char>|
                #[trigger] r.has_key(k) && (k == id_key() || !fields.has_key(k) || find_key(
                    fields.key_seq(),
                    k,
                ) >= t) ==> row.has_key(k) && r.spec_get(k) == row.spec_get(k),
        decreases fields.key_seq().len() - t,
    {
        let ghost rr = r;
        let k = fields.key_at(t).clone();
        if !(k == *idk) {
            let v = fields.val_at(t).clone();
            proof {
                lemma_find_key(rr.key_seq(), k@);
                lemma_find_key(rr.key_seq(), id_key());
                lemma_find_key(fields.key_seq(), k@);
                crate::store::lemma_find_key_distinct(fields.key_seq(), t as int);
            }
            r.insert(k, v);
            proof {
                let fk = find_key(rr.key_seq(), k@);
                assert forall|k2: Seq<char>|
                    k2 != k@ && #[trigger] rr.has_key(k2) implies r.has_key(k2) && r.spec_get(k2)
                    == rr.spec_get(k2) by {
                    lemma_find_key(rr.key_seq(), k2);
                    if rr.has_key(k@) {
                        assert(rr.key_seq()[find_key(rr.key_seq(), k2)] == k2);
                        assert(rr.key_seq()[fk] == k@);
                        assert(find_key(rr.key_seq(), k2) != fk);
                    } else {
                        lemma_find_key_push(rr.key_seq(), k@, k2);
                    }
                }
                assert forall|k2: Seq<char>| #[trigger] r.has_key(k2) && k2 != k@ implies rr
                    .has_key(k2) by {
                    if !rr.has_key(k@) {
                        lemma_find_key_push(rr.key_seq(), k@, k2);
                    }
                }
                if rr.has_key(k@) {
                    assert(r.has_key(k@));
                    assert(r.spec_get(k@) == v@);
                } else {
                    lemma_find_key_push(rr.key_seq(), k@, k@);
                    assert(find_key(r.key_seq(), k@) == rr.key_seq().len());
                    assert(r.has_key(k@));
                    assert(r.spec_get(k@) == v@);
                }
                assert(v@ == fields.val_seq()[t as int]);
                assert(fields.spec_get(k@) == fields.val_seq()[t as int]);
                if rr.has_key(k@) {
                    if rr.has_key(id_key()) {
                        assert(find_key(rr.key_seq(), id_key()) != find_key(rr.key_seq(), k@));
                        assert(r.spec_get(id_key()) == rr.spec_get(id_key()));
                    }
                    assert forall|k2: Seq<char>| #[trigger] r.has_key(k2) implies row.has_key(
                        k2,
                    ) || fields.has_key(k2) by {
                        assert(r.key_seq() == rr.key_seq());
                        assert(rr.has_key(k2));
                    }
                } else {
                    lemma_find_key_push(rr.key_seq(), k@, id_key());
                    if rr.has_key(id_key()) {
                        lemma_find_key(rr.key_seq(), id_key());
                        assert(r.spec_get(id_key()) == rr.spec_get(id_key()));
                    }
                    assert forall|k2: Seq<char>| #[trigger] r.has_key(k2) implies row.has_key(
                        k2,
                    ) || fields.has_key(k2) by {
                        lemma_find_key_push(rr.key_seq(), k@, k2);
                        if k2 == k@ {
                            crate::store::lemma_find_key_distinct(fields.key_seq(), t as int);
                            assert(fields.has_key(k@));
                        } else {
                            assert(rr.has_key(k2));
                        }
                    }
                }
            }
        }
        proof {
            assert forall|k2: Seq<char>|
                #[trigger] fields.has_key(k2) && k2 != id_key() && find_key(fields.key_seq(), k2)
                    < t + 1 implies r.has_key(k2) && r.spec_get(k2) == fields.spec_get(k2) by {
                lemma_find_key(fields.key_seq(), k2);
                if find_key(fields.key_seq(), k2) == t {
                    assert(k2 == fields.key_seq()[t as int]);
                }
            }
        }
        t = t + 1;
    }
    proof {
        assert forall|k: Seq<char>| #[trigger] fields.has_key(k) && k != id_key() implies r
            .has_key(k) && r.spec_get(k) == fields.spec_get(k) by {
            lemma_find_key(fields.key_seq(), k);
        }
    }
    r
}

/// One record of a clean table with the given fields written over it:
/// the `id` cell is kept, a cell whose column a field names takes the
/// field's value, and every other cell is kept.
pub open spec fn updated_cells(recs: Seq<Seq<Seq<char>>>, f: int, fields: CsvRow) -> Seq<
    Seq<char>,
> {
    let hdr = recs[0];
    let idx = id_column_of(hdr);
    Seq::new(
        hdr.len(),
        |j: int|
            if j == idx {
                recs[f][j]
            } else if fields.has_key(hdr[j]) {
                fields.spec_get(hdr[j])
            } else {
                recs[f][j]
            },
    )
}

/// Overwrite the fields of the row with the given identifier; the `id`
/// value itself never changes. Returns the new contents, or the
/// row-not-found error when no row carries the identifier. On a clean
/// table whose columns cover the fields, the output is exactly the input
/// with that one record overwritten.
pub fn update_row(content: &str, row_id: &str, fields: &CsvRow) -> (r: Result<String, CsvError>)
    requires
        fields.wf(),
    ensures
        (r matches Err(CsvError::NoHeaders)) <==> parse_records(content@).len() == 0,
        (r matches Err(CsvError::Csv(m))) <==> ragged(parse_records(content@)),
        clean_table(parse_records(content@)) ==> (r is Ok <==> has_row_with_id(
            parse_records(content@),
            row_id@,
        )),
        clean_table(parse_records(content@)) && has_row_with_id(parse_records(content@), row_id@)
            && (forall|k: Seq<char>|
            #[trigger] fields.has_key(k) ==> k == id_key() || parse_records(content@)[0].contains(
                k,
            )) ==> (r matches Ok(w) && exists|f: int|
            1 <= f < parse_records(content@).len() && (#[trigger] parse_records(content@)[f])[
                id_column_of(parse_records(content@)[0])
            ] == row_id@ && w@ == emit_records(
                parse_records(content@).update(
                    f,
                    updated_cells(parse_records(content@), f, *fields),
                ),
            )),
{
    let ghost rm = parse_records(content@);
    let ghost cond = clean_table(rm) && has_row_with_id(rm, row_id@) && (forall|k: Seq<char>|
        #[trigger] fields.has_key(k) ==> k == id_key() || rm[0].contains(k));
    let loaded = match load_csv_with_ids(content) {
        Ok(l) => l,
        Err(e) => {
            proof {
                if clean_table(rm) {
                    assert(rm.len() > 0 && !ragged(rm));
                }
            }
            return Err(e);
        },
    };
    let ghost rewv = opt_str_view(loaded.rewritten);
    let mut rows = loaded.rows;
    let ghost rows0 = rows@;
    let idk = id_string();
    let target = String::from_str(row_id);
    let mut i: usize = 0;
    let mut found: Option<usize> = None;
    while i < rows.len()
        invariant
            0 <= i <= rows@.len(),
            rows@ == rows0,
            load_ok_post(rm, rows0, rewv),
            idk@ == id_key(),
            target@ == row_id@,
            forall|j: int| 0 <= j < rows@.len() ==> (#[trigger] rows@[j]).wf(),
            forall|j: int| 0 <= j < rows@.len() ==> (#[trigger] rows@[j]).has_key(id_key()),
            found is None ==> forall|j: int|
                0 <= j < i ==> (#[trigger] rows@[j]).spec_get(id_key()) != row_id@,
            found matches Some(f) ==> f < rows@.len() && rows@[f as int].spec_get(id_key())
                == row_id@,
        decreases rows@.len() - i,
    {
        let matched = match rows[i].get(&idk) {
            Some(v) => *v == target,
            None => false,
        };
        if matched && found.is_none() {
            found = Some(i);
        }
        i = i + 1;
    }
    proof {
        if clean_table(rm) {
            assert forall|j: int| 0 <= j < rows0.len() implies (#[trigger] rows0[j]).spec_get(
                id_key(),
            ) == rm[j + 1][id_column_of(rm[0])] by {
                lemma_clean_load_keeps_ids(rm, rows0, rewv, j);
            }
        }
    }
    match found {
        Some(f) => {
            proof {
                if clean_table(rm) {
                    assert(rm[f + 1][id_column_of(rm[0])] == row_id@);
                    assert(has_row_with_id(rm, row_id@));
                }
            }
            let row = apply_update_fields(&rows[f], fields, &idk);
            proof {
                if cond {
                    lemma_clean_rows_verbatim(rm, rows0, rewv);
                    let hdr = rm[0];
                    let idx = id_column_of(hdr);
                    lemma_find_key(hdr, id_key());
                    let orow = rows0[f as int];
                    assert(orow.key_seq() == hdr);
                    assert forall|k: Seq<char>| #[trigger] row.has_key(k) implies orow.has_key(
                        k,
                    ) by {
                        if !orow.has_key(k) {
                            assert(fields.has_key(k));
                            assert(k == id_key() || hdr.contains(k));
                            if k == id_key() {
                                lemma_find_key_distinct(hdr, idx);
                                assert(orow.has_key(k));
                            } else {
                                let w = choose|w: int|
                                    0 <= w < hdr.len() && #[trigger] hdr[w] == k;
                                lemma_find_key_distinct(hdr, w);
                                assert(orow.has_key(k));
                            }
                        }
                    }
                    if row.key_seq().len() > hdr.len() {
                        let extra = row.key_seq()[hdr.len() as int];
                        lemma_find_key_distinct(row.key_seq(), hdr.len() as int);
                        assert(row.has_key(extra));
                        assert(orow.has_key(extra));
                        lemma_find_key(hdr, extra);
                        let w = find_key(hdr, extra);
                        assert(row.key_seq()[w] == extra);
                        assert(false);
                    }
                    assert(row.key_seq() =~= hdr);
                    assert forall|j: int| 0 <= j < hdr.len() implies #[trigger] row_cells(
                        hdr,
                        row,
                    )[j] == updated_cells(rm, f + 1, *fields)[j] by {
                        lemma_find_key_distinct(hdr, j);
                        assert(row.has_key(hdr[j]));
                        assert(orow.spec_get(hdr[j]) == orow.val_seq()[j]);
                        if j == idx {
                            assert(hdr[j] == id_key());
                            assert(row.spec_get(id_key()) == orow.spec_get(id_key()));
                        } else if fields.has_key(hdr[j]) {
                            assert(hdr[j] != id_key());
                            assert(row.spec_get(hdr[j]) == fields.spec_get(hdr[j]));
                        } else {
                            assert(row.spec_get(hdr[j]) == orow.spec_get(hdr[j]));
                        }
                    }
                    assert(row_cells(hdr, row) =~= updated_cells(rm, f + 1, *fields));
                }
            }
            rows.set(f, row);
            proof {
                assert(forall|j: int| 0 <= j < rows@.len() ==> (#[trigger] rows@[j]).wf());
            }
            let w_opt = write_csv(&rows);
            proof {
                if cond {
                    let hdr = rm[0];
                    assert(rows@.len() == rm.len() - 1 > 0);
                    let orecs = out_records(rows@);
                    assert(rows@[0].key_seq() == hdr);
                    assert(orecs[0] == hdr);
                    let target_recs = rm.update(f + 1, updated_cells(rm, f + 1, *fields));
                    assert forall|j: int| 0 <= j < rows@.len() implies #[trigger] orecs[j + 1]
                        == target_recs[j + 1] by {
                        if j == f {
                            assert(row_cells(hdr, rows@[j]) == updated_cells(
                                rm,
                                f + 1,
                                *fields,
                            ));
                        } else {
                            lemma_row_cells_self(rows0[j]);
                            assert(rows@[j] == rows0[j]);
                            assert(row_cells(hdr, rows0[j]) == rows0[j].val_seq());
                        }
                    }
                    assert(orecs =~= target_recs);
                    assert(rm[f + 1][id_column_of(rm[0])] == row_id@);
                    assert(w_opt matches Some(w) && w@ == emit_records(target_recs));
                }
            }
            match w_opt {
                Some(w) => Ok(w),
                None => Ok(String::new()),
            }
        },
        None => {
            proof {
                if clean_table(rm) && has_row_with_id(rm, row_id@) {
                    let w = choose|w: int|
                        1 <= w < rm.len() && (#[trigger] rm[w])[id_column_of(rm[0])] == row_id@;
                    assert(rows0[w - 1].spec_get(id_key()) == row_id@);
                }
            }
            Err(row_not_found(row_id))
        },
    }
}

/// Delete the row with the given identifier. Returns the new contents —
/// or nothing to write when no rows remain — or the row-not-found error
/// when no row carries it.
#[verifier::rlimit(80)]
pub fn delete_row(content: &str, row_id: &str) -> (r: Result<Option<String>, CsvError>)
    ensures
        (r matches Err(CsvError::NoHeaders)) <==> parse_records(content@).len() == 0,
        (r matches Err(CsvError::Csv(m))) <==> ragged(parse_records(content@)),
        clean_table(parse_records(content@)) ==> (r is Ok <==> has_row_with_id(
            parse_records(content@),
            row_id@,
        )),
        clean_table(parse_records(content@)) ==> (r matches Ok(o) ==> (((o matches Some(w) && w@
            == emit_records(without_row(parse_records(content@), row_id@)))
            && without_row(parse_records(content@), row_id@).len() > 1) || (o is None
            && without_row(parse_records(content@), row_id@).len() == 1))),
{
    reveal(Seq::filter);
    let ghost rm = parse_records(content@);
    let loaded = match load_csv_with_ids(content) {
        Ok(l) => l,
        Err(e) => {
            proof {
                if clean_table(rm) {
                    assert(rm.len() > 0 && !ragged(rm));
                }
            }
            return Err(e);
        },
    };
    let ghost rewv = opt_str_view(loaded.rewritten);
    let rows = loaded.rows;
    let ghost rows0 = rows@;
    let ghost idx = id_column_of(rm[0]);
    let ghost pred = |c: Seq<Seq<char>>| c[id_column_of(rm[0])] != row_id@;
    proof {
        if clean_table(rm) {
            assert forall|j: int| 0 <= j < rows0.len() implies (#[trigger] rows0[j]).spec_get(
                id_key(),
            ) == rm[j + 1][idx] by {
                lemma_clean_load_keeps_ids(rm, rows0, rewv, j);
            }
            lemma_find_key(rm[0], id_key());
        }
    }
    let idk = id_string();
    let target = String::from_str(row_id);
    let mut kept: Vec<CsvRow> = Vec::new();
    let mut removed = false;
    let mut i: usize = 0;
    proof {
        if clean_table(rm) {
            assert(rm.drop_first().take(0).filter(pred) =~= Seq::<Seq<Seq<char>>>::empty());
            assert(Seq::new(kept@.len() as nat, |j: int| kept@[j].val_seq())
                =~= rm.drop_first().take(0).filter(pred));
        }
    }
    while i < rows.len()
        invariant
            0 <= i <= rows@.len(),
            rows@ == rows0,
            load_ok_post(rm, rows0, rewv),
            idx == id_column_of(rm[0]),
            pred == (|c: Seq<Seq<char>>| c[id_column_of(rm[0])] != row_id@),
            idk@ == id_key(),
            target@ == row_id@,
            forall|j: int| 0 <= j < rows@.len() ==> (#[trigger] rows@[j]).wf(),
            forall|j: int| 0 <= j < rows@.len() ==> (#[trigger] rows@[j]).has_key(id_key()),
            forall|j: int| 0 <= j < kept@.len() ==> (#[trigger] kept@[j]).wf(),
            removed <==> exists|j: int|
                0 <= j < i && (#[trigger] rows@[j]).spec_get(id_key()) == row_id@,
            clean_table(rm) ==> {
                &&& rows0.len() == rm.len() - 1
                &&& (forall|j: int|
                    0 <= j < rows0.len() ==> (#[trigger] rows0[j]).spec_get(id_key()) == rm[j
                        + 1][idx])
                &&& (forall|j: int|
                    0 <= j < rows0.len() ==> (#[trigger] rows0[j]).key_seq() == rm[0]
                        && rows0[j].val_seq() == rm[j + 1])
                &&& (forall|j: int|
                    0 <= j < kept@.len() ==> (#[trigger] kept@[j]).key_seq() == rm[0])
                &&& Seq::new(kept@.len() as nat, |j: int| kept@[j].val_seq())
                    == rm.drop_first().take(i as int).filter(pred)
            },
        decreases rows@.len() - i,
    {
        let ghost kept_before = kept@;
        let matched = match rows[i].get(&idk) {
            Some(v) => *v == target,
            None => false,
        };
        if matched {
            removed = true;
        } else {
            kept.push(rows[i].clone_row());
        }
        proof {
            if clean_table(rm) {
                reveal(Seq::filter);
                assert(rm.drop_first().take(i + 1).drop_last() =~= rm.drop_first().take(i as int));
                assert(rm.drop_first().take(i + 1).last() == rm[i + 1]);
                assert(matched == !pred(rm[i + 1])) by {
                    assert(rows0[i as int].spec_get(id_key()) == rm[i + 1][idx]);
                }
                if matched {
                    assert(Seq::new(kept@.len() as nat, |j: int| kept@[j].val_seq())
                        =~= rm.drop_first().take(i + 1).filter(pred));
                } else {
                    assert(kept@.last().val_seq() == rows0[i as int].val_seq());
                    assert(Seq::new(kept@.len() as nat, |j: int| kept@[j].val_seq())
                        =~= rm.drop_first().take(i as int).filter(pred).push(rm[i + 1]));
                    assert(Seq::new(kept@.len() as nat, |j: int| kept@[j].val_seq())
                        =~= rm.drop_first().take(i + 1).filter(pred));
                }
            }
        }
        i = i + 1;
    }
    proof {
        if clean_table(rm) {
            assert(rm.drop_first().take(rm.drop_first().len() as int) =~= rm.drop_first());
            if removed {
                let w = choose|w: int|
                    0 <= w < rows0.len() && (#[trigger] rows0[w]).spec_get(id_key()) == row_id@;
                assert(rm[w + 1][idx] == row_id@);
                assert(has_row_with_id(rm, row_id@));
            } else {
                if has_row_with_id(rm, row_id@) {
                    let w = choose|w: int|
                        1 <= w < rm.len() && (#[trigger] rm[w])[id_column_of(rm[0])] == row_id@;
                    assert(rows0[w - 1].spec_get(id_key()) == row_id@);
                }
            }
        }
    }
    if !removed {
        return Err(row_not_found(row_id));
    }
    let out = write_csv(&kept);
    proof {
        if clean_table(rm) {
            let wr = without_row(rm, row_id@);
            if kept@.len() > 0 {
                assert(out_records(kept@) =~= wr) by {
                    assert(kept@[0].key_seq() == rm[0]);
                    assert forall|j: int| 0 <= j < kept@.len() implies row_cells(
                        kept@[0].key_seq(),
                        #[trigger] kept@[j],
                    ) == Seq::new(kept@.len() as nat, |m: int| kept@[m].val_seq())[j] by {
                        assert(kept@[j].key_seq() == rm[0]);
                        lemma_row_cells_self(kept@[j]);
                    }
                    assert(out_records(kept@).len() == wr.len());
                    assert(out_records(kept@)[0] == rm[0]);
                }
                assert(wr == out_records(kept@)) by {
                    assert(wr =~= out_records(kept@));
                }
            } else {
                assert(rm.drop_first().filter(pred).len() == 0);
                assert(wr.len() == 1);
            }
        }
    }
    match out {
        Some(w) => Ok(Some(w)),
        None => Ok(None),
    }
}

/// Append a component row: the component-based name for `append_row`.
pub fn append_component(content: &str, fields: &CsvRow) -> (r: Result<(String, String), CsvError>)
    requires
        fields.wf(),
    ensures
        r is Ok <==> parse_records(content@).len() > 0 && !ragged(parse_records(content@)),
        r matches Ok(p) ==> p.1@.len() >= 36,
        clean_table(parse_records(content@)) && parse_records(content@).len() > 1 ==> (r matches
            Ok(p) && p.0@ == emit_records(
            parse_records(content@).push(appended_cells(parse_records(content@), *fields, p.1@)),
        ) && (forall|i: int|
            1 <= i < parse_records(content@).len() ==> (#[trigger] parse_records(content@)[i])[
                id_column_of(parse_records(content@)[0])
            ] != p.1@)),
{
    append_row(content, fields)
}

/// Update a component row: the component-based name for `update_row`.
pub fn update_component(content: &str, row_id: &str, fields: &CsvRow) -> (r: Result<
    String,
    CsvError,
>)
    requires
        fields.wf(),
    ensures
        (r matches Err(CsvError::NoHeaders)) <==> parse_records(content@).len() == 0,
        clean_table(parse_records(content@)) ==> (r is Ok <==> has_row_with_id(
            parse_records(content@),
            row_id@,
        )),
        clean_table(parse_records(content@)) && has_row_with_id(parse_records(content@), row_id@)
            && (forall|k: Seq<char>|
            #[trigger] fields.has_key(k) ==> k == id_key() || parse_records(content@)[0].contains(
                k,
            )) ==> (r matches Ok(w) && exists|f: int|
            1 <= f < parse_records(content@).len() && (#[trigger] parse_records(content@)[f])[
                id_column_of(parse_records(content@)[0])
            ] == row_id@ && w@ == emit_records(
                parse_records(content@).update(
                    f,
                    updated_cells(parse_records(content@), f, *fields),
                ),
            )),
{
    update_row(content, row_id, fields)
}

/// Delete a component row: the component-based name for `delete_row`.
pub fn delete_component(content: &str, row_id: &str) -> (r: Result<Option<String>, CsvError>)
    ensures
        (r matches Err(CsvError::NoHeaders)) <==> parse_records(content@).len() == 0,
        clean_table(parse_records(content@)) ==> (r is Ok <==> has_row_with_id(
            parse_records(content@),
            row_id@,
        )),
        clean_table(parse_records(content@)) ==> (r matches Ok(o) ==> (((o matches Some(w) && w@
            == emit_records(without_row(parse_records(content@), row_id@)))
            && without_row(parse_records(content@), row_id@).len() > 1) || (o is None
            && without_row(parse_records(content@), row_id@).len() == 1))),
{
    delete_row(content, row_id)
}

/// The strings of one record's cells.
fn cells_to_strings(cells: &Vec<Vec<char>>) -> (r: Vec<String>)
    ensures
        r.deep_view() == cells.deep_view(),
        r@.len() == cells@.len(),
{
    let mut r: Vec<String> = Vec::new();
    let mut i: usize = 0;
    while i < cells.len()
        invariant
            0 <= i <= cells@.len(),
            r.deep_view() =~= cells.deep_view().take(i as int),
        decreases cells@.len() - i,
    {
        let ghost before = r.deep_view();
        r.push(chars_to_string(&cells[i]));
        proof {
            assert(r.deep_view() =~~= before.push(cells@[i as int]@));
            assert(cells.deep_view()[i as int] == cells@[i as int]@);
            assert(r.deep_view() =~= cells.deep_view().take(i + 1));
        }
        i = i + 1;
    }
    proof {
        assert(r.deep_view() =~= cells.deep_view());
    }
    r
}

} // verus!
