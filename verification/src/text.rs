//! Character-level helpers shared by the parsers and formatters:
//! conversions between `String` and `Vec<char>`, decimal rendering and
//! parsing, and prefix/suffix tests.
use vstd::prelude::*;

verus! {

use vstd::string::StrSliceExecFns;

/// The characters of `s`, as a vector.
pub fn str_to_chars(s: &str) -> (r: Vec<char>)
    ensures
        r@ == s@,
{
    let n = s.unicode_len();
    let mut r: Vec<char> = Vec::new();
    let mut i: usize = 0;
    while i < n
        invariant
            i <= n,
            n == s@.len(),
            r@ == s@.subrange(0, i as int),
        decreases n - i,
    {
        r.push(s.get_char(i));
        i = i + 1;
        proof {
            assert(r@ =~= s@.subrange(0, i as int));
        }
    }
    proof {
        assert(r@ =~= s@);
    }
    r
}

/// Relies on `String`'s `FromIterator` over `char`: collecting characters
/// yields the string of exactly those characters in order.
#[verifier::external_body]
pub fn chars_to_string(v: &Vec<char>) -> (r: String)
    ensures
        r@ == v@,
{
    v.iter().collect()
}

/// The characters of a `String`, as a vector.
pub fn string_to_chars(s: &String) -> (r: Vec<char>)
    ensures
        r@ == s@,
{
    str_to_chars(s.as_str())
}

/// Whether `s` ends with `t`.
pub open spec fn ends_with(s: Seq<char>, t: Seq<char>) -> bool {
    s.len() >= t.len() && s.subrange(s.len() - t.len(), s.len() as int) == t
}

/// Whether `s` starts with `t`.
pub open spec fn starts_with(s: Seq<char>, t: Seq<char>) -> bool {
    s.len() >= t.len() && s.subrange(0, t.len() as int) == t
}

/// Whether the character vector `s` ends with the characters of `t`.
pub fn chars_end_with(s: &Vec<char>, t: &Vec<char>) -> (r: bool)
    ensures
        r == ends_with(s@, t@),
{
    if s.len() < t.len() {
        return false;
    }
    let slen: usize = s.len();
    let off: usize = slen - t.len();
    let mut i: usize = 0;
    while i < t.len()
        invariant
            0 <= i <= t@.len(),
            slen == s@.len(),
            off == s@.len() - t@.len(),
            s@.len() >= t@.len(),
            forall|j: int| 0 <= j < i ==> s@[off + j] == t@[j],
        decreases t@.len() - i,
    {
        if s[off + i] != t[i] {
            assert(s@.subrange(off as int, s@.len() as int)[i as int] != t@[i as int]);
            return false;
        }
        i = i + 1;
    }
    proof {
        assert(s@.subrange(off as int, s@.len() as int) =~= t@);
    }
    true
}

/// Whether the character vector `s` starts with the characters of `t`.
pub fn chars_start_with(s: &Vec<char>, t: &Vec<char>) -> (r: bool)
    ensures
        r == starts_with(s@, t@),
{
    if s.len() < t.len() {
        return false;
    }
    let mut i: usize = 0;
    while i < t.len()
        invariant
            0 <= i <= t@.len(),
            s@.len() >= t@.len(),
            forall|j: int| 0 <= j < i ==> s@[j] == t@[j],
        decreases t@.len() - i,
    {
        if s[i] != t[i] {
            assert(s@.subrange(0, t@.len() as int)[i as int] != t@[i as int]);
            return false;
        }
        i = i + 1;
    }
    proof {
        assert(s@.subrange(0, t@.len() as int) =~= t@);
    }
    true
}

/// The character for one decimal digit (`0` through `9`).
pub open spec fn digit_char(d: nat) -> char {
    (('0' as u8) + (d as u8)) as char
}

/// The decimal digits of `n`, most significant first, no leading zeros.
pub open spec fn dec_digits(n: nat) -> Seq<char>
    decreases n,
{
    if n < 10 {
        seq![digit_char(n)]
    } else {
        dec_digits(n / 10).push(digit_char(n % 10))
    }
}

/// Render a number as its decimal digits.
pub fn u64_to_dec(n: u64) -> (r: Vec<char>)
    ensures
        r@ == dec_digits(n as nat),
{
    let mut digits: Vec<char> = Vec::new();
    let mut m: u64 = n;
    loop
        invariant_except_break
            dec_digits(n as nat) == dec_digits(m as nat) + digits@,
        ensures
            digits@ == dec_digits(n as nat),
        decreases m,
    {
        let d: u8 = (m % 10) as u8;
        let c: char = (('0' as u8) + d) as char;
        digits.insert(0, c);
        proof {
            assert(c == digit_char((m % 10) as nat));
            if m >= 10 {
                assert(dec_digits(m as nat) == dec_digits((m / 10) as nat).push(
                    digit_char((m % 10) as nat),
                ));
                assert(dec_digits((m / 10) as nat) + digits@ =~= dec_digits(m as nat)
                    + digits@.drop_first());
            } else {
                assert(dec_digits(m as nat) =~= seq![c]);
                assert(digits@ =~= seq![c] + digits@.drop_first());
            }
        }
        if m < 10 {
            break;
        }
        m = m / 10;
    }
    digits
}

/// Render a number as a decimal `String`.
pub fn u64_to_dec_string(n: u64) -> (r: String)
    ensures
        r@ == dec_digits(n as nat),
{
    let digits = u64_to_dec(n);
    crate::text::chars_to_string(&digits)
}

/// The numeric value of a digit character; meaningful only for `0`..`9`.
pub open spec fn digit_val(c: char) -> nat {
    ((c as u32) - ('0' as u32)) as nat
}

/// Whether `c` is a decimal digit.
pub open spec fn is_digit(c: char) -> bool {
    ('0' as u32) <= (c as u32) && (c as u32) <= ('9' as u32)
}

/// The value of a digit string read most-significant first.
pub open spec fn dec_value(s: Seq<char>) -> nat
    decreases s.len(),
{
    if s.len() == 0 {
        0
    } else {
        dec_value(s.drop_last()) * 10 + digit_val(s.last())
    }
}

/// Whether every character of `s` is a decimal digit.
pub open spec fn all_digits(s: Seq<char>) -> bool {
    forall|i: int| 0 <= i < s.len() ==> is_digit(#[trigger] s[i])
}

/// The digit portion of a decimal literal: the whole string, or what
/// follows a single leading `+` sign.
pub open spec fn dec_literal_digits(s: Seq<char>) -> Seq<char> {
    if s.len() > 0 && s[0] == '+' {
        s.drop_first()
    } else {
        s
    }
}

/// Whether `s` is a decimal literal that `usize` parsing accepts:
/// an optional `+` sign, then one or more digits, value within range.
pub open spec fn is_usize_literal(s: Seq<char>) -> bool {
    &&& dec_literal_digits(s).len() > 0
    &&& all_digits(dec_literal_digits(s))
    &&& dec_value(dec_literal_digits(s)) <= usize::MAX
}

/// Parse a decimal `usize`, accepting an optional leading `+`, exactly as
/// the standard library's string-to-integer parsing does for `usize`.
#[verifier::loop_isolation(false)]
pub fn parse_usize(s: &Vec<char>) -> (r: Option<usize>)
    ensures
        r is Some <==> is_usize_literal(s@),
        r is Some ==> r->Some_0 == dec_value(dec_literal_digits(s@)),
{
    let ghost digits_view = dec_literal_digits(s@);
    let start: usize = if s.len() > 0 && s[0] == '+' {
        1
    } else {
        0
    };
    proof {
        assert(digits_view =~= s@.subrange(start as int, s@.len() as int));
    }
    if s.len() == start {
        return None;
    }
    let mut acc: usize = 0;
    let mut i: usize = start;
    while i < s.len()
        invariant
            start <= i <= s@.len(),
            digits_view == s@.subrange(start as int, s@.len() as int),
            all_digits(s@.subrange(start as int, i as int)),
            acc == dec_value(s@.subrange(start as int, i as int)),
        decreases s@.len() - i,
    {
        let c = s[i];
        let u = c as u32;
        if !(48 <= u && u <= 57) {
            proof {
                assert(('0' as u32) == 48 && ('9' as u32) == 57);
                assert(!is_digit(s@[i as int]));
                assert(digits_view[i - start] == s@[i as int]);
            }
            return None;
        }
        let d: u32 = u - 48;
        proof {
            assert(is_digit(c));
            assert(d == digit_val(c));
        }
        let step = match acc.checked_mul(10) {
            Some(t) => t.checked_add(d as usize),
            None => None,
        };
        match step {
            Some(v) => {
                acc = v;
                i = i + 1;
                proof {
                    assert(s@.subrange(start as int, i as int) =~= s@.subrange(
                        start as int,
                        i - 1,
                    ).push(c));
                    assert(s@.subrange(start as int, i as int).drop_last() =~= s@.subrange(
                        start as int,
                        i - 1,
                    ));
                }
            },
            None => {
                proof {
                    lemma_dec_value_monotonic(digits_view, i + 1 - start);
                    assert(s@.subrange(start as int, i + 1) =~= s@.subrange(start as int, i as int)
                        .push(c));
                    assert(s@.subrange(start as int, i + 1).drop_last() =~= s@.subrange(
                        start as int,
                        i as int,
                    ));
                    assert(digits_view.subrange(0, i + 1 - start) =~= s@.subrange(
                        start as int,
                        i + 1,
                    ));
                    assert(dec_value(digits_view.subrange(0, i + 1 - start)) > usize::MAX);
                }
                return None;
            },
        }
    }
    proof {
        assert(s@.subrange(start as int, s@.len() as int) =~= digits_view);
    }
    Some(acc)
}

/// A prefix of a digit string never has a larger value than the whole.
proof fn lemma_dec_value_monotonic(s: Seq<char>, k: int)
    requires
        0 <= k <= s.len(),
    ensures
        dec_value(s.subrange(0, k)) <= dec_value(s),
    decreases s.len() - k,
{
    if k < s.len() {
        lemma_dec_value_monotonic(s, k + 1);
        assert(s.subrange(0, k + 1).drop_last() =~= s.subrange(0, k));
        assert(dec_value(s.subrange(0, k + 1)) == dec_value(s.subrange(0, k)) * 10 + digit_val(
            s.subrange(0, k + 1).last(),
        ));
    } else {
        assert(s.subrange(0, k) =~= s);
    }
}

/// ASCII lower-casing of one character: `A`..`Z` map to `a`..`z`,
/// everything else is unchanged.
pub open spec fn lower_char(c: char) -> char {
    if ('A' as u32) <= (c as u32) && (c as u32) <= ('Z' as u32) {
        ((c as u8) + 32) as char
    } else {
        c
    }
}

/// ASCII lower-casing of a character sequence.
pub open spec fn lower_chars(s: Seq<char>) -> Seq<char> {
    s.map_values(|c: char| lower_char(c))
}

/// Lower-case one character, ASCII only.
pub fn to_ascii_lower(c: char) -> (r: char)
    ensures
        r == lower_char(c),
{
    let u = c as u32;
    if 65 <= u && u <= 90 {
        ((c as u8) + 32) as char
    } else {
        proof {
            assert(('A' as u32) == 65 && ('Z' as u32) == 90);
        }
        c
    }
}

/// Lexicographic order on character sequences, by code point: a prefix
/// comes before its extensions, and otherwise the first differing
/// character decides.
pub open spec fn lex_le(a: Seq<char>, b: Seq<char>) -> bool
    decreases a.len(),
{
    if a.len() == 0 {
        true
    } else if b.len() == 0 {
        false
    } else if (a[0] as u32) < (b[0] as u32) {
        true
    } else if (a[0] as u32) > (b[0] as u32) {
        false
    } else {
        lex_le(a.drop_first(), b.drop_first())
    }
}

/// The order is total: of any two sequences, one comes at or before the
/// other.
pub proof fn lemma_lex_le_total(a: Seq<char>, b: Seq<char>)
    ensures
        lex_le(a, b) || lex_le(b, a),
    decreases a.len(),
{
    if a.len() == 0 || b.len() == 0 {
    } else if (a[0] as u32) == (b[0] as u32) {
        lemma_lex_le_total(a.drop_first(), b.drop_first());
    }
}

/// The order is transitive.
pub proof fn lemma_lex_le_trans(a: Seq<char>, b: Seq<char>, c: Seq<char>)
    requires
        lex_le(a, b),
        lex_le(b, c),
    ensures
        lex_le(a, c),
    decreases a.len(),
{
    if a.len() == 0 {
    } else if (a[0] as u32) == (b[0] as u32) && (b[0] as u32) == (c[0] as u32) {
        lemma_lex_le_trans(a.drop_first(), b.drop_first(), c.drop_first());
    }
}

/// Whether `a` comes at or before `b` in lexicographic order.
pub fn lex_le_strings(a: &String, b: &String) -> (r: bool)
    ensures
        r == lex_le(a@, b@),
{
    let av = string_to_chars(a);
    let bv = string_to_chars(b);
    let mut i: usize = 0;
    proof {
        assert(a@.skip(0) =~= a@);
        assert(b@.skip(0) =~= b@);
    }
    while i < av.len() && i < bv.len()
        invariant
            0 <= i <= av@.len(),
            i <= bv@.len(),
            av@ == a@,
            bv@ == b@,
            lex_le(a@, b@) == lex_le(a@.skip(i as int), b@.skip(i as int)),
        decreases av@.len() - i,
    {
        let ca = av[i] as u32;
        let cb = bv[i] as u32;
        proof {
            assert(a@.skip(i as int)[0] == a@[i as int]);
            assert(b@.skip(i as int)[0] == b@[i as int]);
        }
        if ca < cb {
            return true;
        }
        if ca > cb {
            return false;
        }
        proof {
            assert(a@.skip(i as int).drop_first() =~= a@.skip(i as int + 1));
            assert(b@.skip(i as int).drop_first() =~= b@.skip(i as int + 1));
        }
        i = i + 1;
    }
    proof {
        if i == av@.len() {
            assert(a@.skip(i as int).len() == 0);
        } else {
            assert(b@.skip(i as int).len() == 0);
            assert(a@.skip(i as int).len() > 0);
        }
    }
    av.len() <= bv.len()
}

/// Sort strings ascending by code-point lexicographic order. The result
/// holds exactly the input's values.
pub fn sort_strings(v: &Vec<String>) -> (r: Vec<String>)
    ensures
        r@.len() == v@.len(),
        forall|p: int, q: int|
            0 <= p < q < r@.len() ==> lex_le(
                #[trigger] r.deep_view()[p],
                #[trigger] r.deep_view()[q],
            ),
        forall|x: Seq<char>|
            #![trigger r.deep_view().contains(x)]
            #![trigger v.deep_view().contains(x)]
            r.deep_view().contains(x) <==> v.deep_view().contains(x),
{
    let ghost vd = v.deep_view();
    let mut r: Vec<String> = Vec::new();
    let mut i: usize = 0;
    while i < v.len()
        invariant
            0 <= i <= v@.len(),
            r@.len() == i,
            vd == v.deep_view(),
            vd.len() == v@.len(),
            forall|p: int, q: int|
                0 <= p < q < r@.len() ==> lex_le(
                    #[trigger] r.deep_view()[p],
                    #[trigger] r.deep_view()[q],
                ),
            forall|x: Seq<char>|
                #![trigger r.deep_view().contains(x)]
                #![trigger vd.take(i as int).contains(x)]
                r.deep_view().contains(x) <==> vd.take(i as int).contains(x),
        decreases v@.len() - i,
    {
        let s = v[i].clone();
        let ghost sv = s@;
        proof {
            assert(sv == vd[i as int]);
        }
        let mut p: usize = 0;
        while p < r.len() && !lex_le_strings(&s, &r[p])
            invariant
                0 <= p <= r@.len(),
                s@ == sv,
                forall|k: int| 0 <= k < p ==> lex_le(#[trigger] r.deep_view()[k], sv),
            decreases r@.len() - p,
        {
            proof {
                lemma_lex_le_total(sv, r.deep_view()[p as int]);
            }
            p = p + 1;
        }
        let ghost old_rd = r.deep_view();
        let ghost rold = r@;
        r.insert(p, s);
        proof {
            assert(r@ =~= rold.take(p as int).push(r@[p as int]) + rold.skip(p as int));
            assert(r@[p as int]@ == sv);
            assert forall|k: int| 0 <= k < p implies #[trigger] r.deep_view()[k] == old_rd[k] by {
                assert(r@[k] == rold[k]);
            }
            assert forall|k: int| p < k < r@.len() implies #[trigger] r.deep_view()[k] == old_rd[k
                - 1] by {
                assert(r@[k] == rold[k - 1]);
            }
            assert(r.deep_view()[p as int] == sv);
            assert forall|pp: int, qq: int| 0 <= pp < qq < r@.len() implies lex_le(
                #[trigger] r.deep_view()[pp],
                #[trigger] r.deep_view()[qq],
            ) by {
                if qq == p {
                    assert(lex_le(old_rd[pp], sv));
                } else if pp == p {
                    assert(r.deep_view()[qq] == old_rd[qq - 1]);
                    if qq - 1 == p {
                        assert(lex_le(sv, old_rd[p as int]));
                    } else {
                        lemma_lex_le_trans(sv, old_rd[p as int], old_rd[qq - 1]);
                    }
                } else if pp < p && p < qq {
                    assert(lex_le(old_rd[pp], old_rd[qq - 1]));
                } else if qq < p {
                    assert(lex_le(old_rd[pp], old_rd[qq]));
                } else {
                    assert(lex_le(old_rd[pp - 1], old_rd[qq - 1]));
                }
            }
            assert forall|x: Seq<char>| #[trigger] r.deep_view().contains(x) implies vd.take(
                i as int + 1,
            ).contains(x) by {
                let k = choose|k: int| 0 <= k < r.deep_view().len() && r.deep_view()[k] == x;
                if k == p {
                    assert(vd.take(i as int + 1)[i as int] == x);
                } else {
                    let ko: int = if k < p {
                        k
                    } else {
                        k - 1
                    };
                    assert(old_rd[ko] == x);
                    assert(old_rd.contains(x));
                    assert(vd.take(i as int).contains(x));
                    let m = choose|m: int|
                        0 <= m < vd.take(i as int).len() && #[trigger] vd.take(i as int)[m] == x;
                    assert(vd.take(i as int + 1)[m] == x);
                }
            }
            assert forall|x: Seq<char>| #[trigger] vd.take(i as int + 1).contains(x) implies r
                .deep_view().contains(x) by {
                let m = choose|m: int|
                    0 <= m < vd.take(i as int + 1).len() && #[trigger] vd.take(i as int + 1)[m]
                        == x;
                if m == i {
                    assert(r.deep_view()[p as int] == x);
                } else {
                    assert(vd.take(i as int)[m] == x);
                    assert(vd.take(i as int).contains(x));
                    assert(old_rd.contains(x));
                    let k = choose|k: int| 0 <= k < old_rd.len() && old_rd[k] == x;
                    let kn: int = if k < p {
                        k
                    } else {
                        k + 1
                    };
                    assert(r.deep_view()[kn] == x);
                }
            }
        }
        i = i + 1;
    }
    proof {
        assert(vd.take(i as int) =~= vd);
    }
    r
}

} // verus!

