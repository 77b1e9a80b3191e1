//! The CSV text format: a functional parser and emitter over character
//! sequences, with a proof that emitting any table and parsing it back
//! yields the table unchanged.
//!
//! Records are lines, fields are separated by commas. A field containing a
//! comma, quote or line break is emitted quoted, with quotes doubled; a
//! record whose only field is empty is emitted as a quoted empty field so
//! that its line is not blank. Blank lines are skipped on parsing.
use vstd::prelude::*;

verus! {

/// Characters that end an unquoted field.
pub open spec fn is_sep(c: char) -> bool {
    c == ',' || c == '\n' || c == '\r'
}

/// Characters that force quoting on emission.
pub open spec fn is_special(c: char) -> bool {
    c == ',' || c == '"' || c == '\n' || c == '\r'
}

/// A field that may be emitted without quotes.
pub open spec fn plain_field(f: Seq<char>) -> bool {
    forall|i: int| 0 <= i < f.len() ==> !is_special(#[trigger] f[i])
}

// ---------------------------------------------------------------------------
// Parsing, as functions from a suffix of the input to values and lengths.
// ---------------------------------------------------------------------------
/// Length of the unquoted field starting the suffix `s`.
pub open spec fn unq_len(s: Seq<char>) -> nat
    decreases s.len(),
{
    if s.len() == 0 || is_sep(s[0]) {
        0
    } else {
        1 + unq_len(s.drop_first())
    }
}

/// The value of the unquoted field starting `s`.
pub open spec fn unq_val(s: Seq<char>) -> Seq<char> {
    s.take(unq_len(s) as int)
}

/// An unquoted field never runs past the suffix.
pub proof fn lemma_unq_len_bound(s: Seq<char>)
    ensures
        unq_len(s) <= s.len(),
    decreases s.len(),
{
    if s.len() == 0 || is_sep(s[0]) {
    } else {
        lemma_unq_len_bound(s.drop_first());
    }
}

/// Length consumed by a quoted field body (after its opening quote),
/// including the closing quote.
pub open spec fn q_len(s: Seq<char>) -> nat
    decreases s.len(),
{
    if s.len() == 0 {
        0
    } else if s[0] == '"' {
        if s.len() >= 2 && s[1] == '"' {
            2 + q_len(s.skip(2))
        } else {
            1
        }
    } else {
        1 + q_len(s.drop_first())
    }
}

/// The value of a quoted field body: doubled quotes collapse, the closing
/// quote ends the field, a missing closing quote ends it at the suffix end.
pub open spec fn q_val(s: Seq<char>) -> Seq<char>
    decreases s.len(),
{
    if s.len() == 0 {
        Seq::empty()
    } else if s[0] == '"' {
        if s.len() >= 2 && s[1] == '"' {
            seq!['"'] + q_val(s.skip(2))
        } else {
            Seq::empty()
        }
    } else {
        seq![s[0]] + q_val(s.drop_first())
    }
}

/// A quoted field body never runs past the suffix.
pub proof fn lemma_q_len_bound(s: Seq<char>)
    ensures
        q_len(s) <= s.len(),
    decreases s.len(),
{
    if s.len() == 0 {
    } else if s[0] == '"' {
        if s.len() >= 2 && s[1] == '"' {
            lemma_q_len_bound(s.skip(2));
        }
    } else {
        lemma_q_len_bound(s.drop_first());
    }
}

/// The value of the field starting the suffix `s`.
pub open spec fn field_val(s: Seq<char>) -> Seq<char> {
    if s.len() > 0 && s[0] == '"' {
        q_val(s.drop_first())
    } else {
        unq_val(s)
    }
}

/// The length of the field starting the suffix `s`.
pub open spec fn field_len(s: Seq<char>) -> nat {
    if s.len() > 0 && s[0] == '"' {
        1 + q_len(s.drop_first())
    } else {
        unq_len(s)
    }
}

/// A field never runs past the suffix.
pub proof fn lemma_field_len_bound(s: Seq<char>)
    ensures
        field_len(s) <= s.len(),
{
    if s.len() > 0 && s[0] == '"' {
        lemma_q_len_bound(s.drop_first());
    } else {
        lemma_unq_len_bound(s);
    }
}

/// The fields of the record starting the suffix `s`.
pub open spec fn rec_fields(s: Seq<char>) -> Seq<Seq<char>>
    decreases s.len(),
{
    let f = field_val(s);
    let r = s.skip(field_len(s) as int);
    if r.len() > 0 && r[0] == ',' {
        proof {
            lemma_field_len_bound(s);
        }
        seq![f] + rec_fields(r.drop_first())
    } else {
        seq![f]
    }
}

/// The length consumed by the record starting `s`, line terminator included.
pub open spec fn rec_len(s: Seq<char>) -> nat
    decreases s.len(),
{
    let n = field_len(s);
    let r = s.skip(n as int);
    if r.len() > 0 && r[0] == ',' {
        proof {
            lemma_field_len_bound(s);
        }
        n + 1 + rec_len(r.drop_first())
    } else if r.len() >= 2 && r[0] == '\r' && r[1] == '\n' {
        n + 2
    } else if r.len() > 0 {
        n + 1
    } else {
        n
    }
}

/// A record never runs past the suffix, and always consumes at least one
/// character of a non-empty suffix.
pub proof fn lemma_rec_len_bound(s: Seq<char>)
    ensures
        rec_len(s) <= s.len(),
        s.len() > 0 ==> rec_len(s) >= 1,
    decreases s.len(),
{
    lemma_field_len_bound(s);
    let n = field_len(s);
    let r = s.skip(n as int);
    if r.len() > 0 && r[0] == ',' {
        lemma_rec_len_bound(r.drop_first());
        assert(r.drop_first().len() == s.len() - n - 1);
    }
}

/// The records of a CSV text: one per non-blank line.
pub open spec fn parse_records(s: Seq<char>) -> Seq<Seq<Seq<char>>>
    decreases s.len(),
{
    if s.len() == 0 {
        Seq::empty()
    } else if s[0] == '\n' {
        parse_records(s.drop_first())
    } else if s[0] == '\r' {
        if s.len() >= 2 && s[1] == '\n' {
            parse_records(s.skip(2))
        } else {
            parse_records(s.drop_first())
        }
    } else {
        proof {
            lemma_rec_len_bound(s);
        }
        seq![rec_fields(s)] + parse_records(s.skip(rec_len(s) as int))
    }
}

// ---------------------------------------------------------------------------
// Emission.
// ---------------------------------------------------------------------------
/// A field with every quote doubled.
pub open spec fn esc(f: Seq<char>) -> Seq<char>
    decreases f.len(),
{
    if f.len() == 0 {
        Seq::empty()
    } else if f[0] == '"' {
        seq!['"', '"'] + esc(f.drop_first())
    } else {
        seq![f[0]] + esc(f.drop_first())
    }
}

/// One emitted field. `lone` marks a record's only field, which is quoted
/// even when empty so that the record's line is not blank.
pub open spec fn emit_field(f: Seq<char>, lone: bool) -> Seq<char> {
    if !plain_field(f) || (lone && f.len() == 0) {
        seq!['"'] + esc(f) + seq!['"']
    } else {
        f
    }
}

/// The second and later fields of a record, each preceded by a comma.
pub open spec fn emit_fields_rest(fs: Seq<Seq<char>>) -> Seq<char>
    decreases fs.len(),
{
    if fs.len() == 0 {
        Seq::empty()
    } else {
        seq![','] + emit_field(fs[0], false) + emit_fields_rest(fs.drop_first())
    }
}

/// One emitted record line, without its terminator.
pub open spec fn emit_record(fs: Seq<Seq<char>>) -> Seq<char> {
    if fs.len() == 0 {
        Seq::empty()
    } else {
        emit_field(fs[0], fs.len() == 1) + emit_fields_rest(fs.drop_first())
    }
}

/// The emitted text: every record line followed by a newline.
pub open spec fn emit_records(rs: Seq<Seq<Seq<char>>>) -> Seq<char>
    decreases rs.len(),
{
    if rs.len() == 0 {
        Seq::empty()
    } else {
        emit_record(rs[0]) + seq!['\n'] + emit_records(rs.drop_first())
    }
}

// ---------------------------------------------------------------------------
// Emitting and parsing back.
// ---------------------------------------------------------------------------
/// Parsing an unquoted emission: a plain field followed by a separator (or
/// nothing) reads back exactly.
pub proof fn lemma_unq_round(f: Seq<char>, rest: Seq<char>)
    requires
        plain_field(f),
        rest.len() == 0 || is_sep(rest[0]),
    ensures
        unq_len(f + rest) == f.len(),
        unq_val(f + rest) == f,
    decreases f.len(),
{
    let s = f + rest;
    if f.len() == 0 {
        assert(s =~= rest);
    } else {
        assert(!is_special(f[0]));
        assert(s[0] == f[0]);
        assert(s.drop_first() =~= f.drop_first() + rest);
        lemma_unq_round(f.drop_first(), rest);
        assert(unq_len(s) == 1 + unq_len(f.drop_first() + rest));
        assert(unq_val(s) =~= f);
    }
}

/// Parsing a quoted emission: an escaped field, a closing quote, and a
/// separator context read back exactly.
pub proof fn lemma_q_round(f: Seq<char>, rest: Seq<char>)
    requires
        rest.len() == 0 || is_sep(rest[0]),
    ensures
        q_len(esc(f) + seq!['"'] + rest) == esc(f).len() + 1,
        q_val(esc(f) + seq!['"'] + rest) == f,
    decreases f.len(),
{
    let s = esc(f) + seq!['"'] + rest;
    if f.len() == 0 {
        assert(esc(f) =~= Seq::<char>::empty());
        assert(s =~= seq!['"'] + rest);
        assert(s[0] == '"');
        if s.len() >= 2 {
            assert(s[1] == rest[0]);
            assert(s[1] != '"');
        }
        assert(q_len(s) == 1);
        assert(q_val(s) =~= f);
    } else if f[0] == '"' {
        assert(esc(f) =~= seq!['"', '"'] + esc(f.drop_first()));
        assert(s[0] == '"' && s[1] == '"');
        assert(s.len() >= 2);
        lemma_q_round(f.drop_first(), rest);
        assert(s.skip(2) =~= esc(f.drop_first()) + seq!['"'] + rest);
        assert(q_len(s) == 2 + q_len(s.skip(2)));
        assert(q_val(s) =~= seq!['"'] + q_val(s.skip(2)));
        assert(q_val(s) =~= f);
    } else {
        assert(esc(f) =~= seq![f[0]] + esc(f.drop_first()));
        assert(s[0] == f[0]);
        lemma_q_round(f.drop_first(), rest);
        assert(s.drop_first() =~= esc(f.drop_first()) + seq!['"'] + rest);
        assert(q_len(s) == 1 + q_len(s.drop_first()));
        assert(q_val(s) =~= seq![f[0]] + q_val(s.drop_first()));
        assert(q_val(s) =~= f);
    }
}

/// Parsing an emitted field followed by a separator reads back exactly.
pub proof fn lemma_field_round(f: Seq<char>, lone: bool, rest: Seq<char>)
    requires
        rest.len() > 0,
        is_sep(rest[0]),
    ensures
        field_val(emit_field(f, lone) + rest) == f,
        field_len(emit_field(f, lone) + rest) == emit_field(f, lone).len(),
{
    let e = emit_field(f, lone);
    let s = e + rest;
    if !plain_field(f) || (lone && f.len() == 0) {
        assert(e =~= seq!['"'] + esc(f) + seq!['"']);
        assert(s[0] == '"');
        assert(s.drop_first() =~= esc(f) + seq!['"'] + rest);
        lemma_q_round(f, rest);
    } else {
        assert(s =~= f + rest);
        if f.len() > 0 {
            assert(!is_special(f[0]));
            assert(s[0] != '"');
        } else {
            assert(s[0] == rest[0]);
            assert(s[0] != '"');
        }
        lemma_unq_round(f, rest);
    }
}

/// Parsing an emitted record followed by a newline reads back exactly; the
/// newline is consumed.
pub proof fn lemma_record_round(fs: Seq<Seq<char>>, lone: bool, more: Seq<char>)
    requires
        fs.len() >= 1,
    ensures
        rec_fields(emit_field(fs[0], lone) + emit_fields_rest(fs.drop_first()) + seq!['\n'] + more)
            == fs,
        rec_len(emit_field(fs[0], lone) + emit_fields_rest(fs.drop_first()) + seq!['\n'] + more)
            == emit_field(fs[0], lone).len() + emit_fields_rest(fs.drop_first()).len() + 1,
    decreases fs.len(),
{
    let e0 = emit_field(fs[0], lone);
    let tail = emit_fields_rest(fs.drop_first()) + seq!['\n'] + more;
    let s = e0 + emit_fields_rest(fs.drop_first()) + seq!['\n'] + more;
    assert(s =~= e0 + tail);
    if fs.len() == 1 {
        assert(emit_fields_rest(fs.drop_first()) =~= Seq::<char>::empty());
        assert(tail =~= seq!['\n'] + more);
        assert(tail[0] == '\n');
        lemma_field_round(fs[0], lone, tail);
        let r = s.skip(field_len(s) as int);
        assert(r =~= tail);
        assert(r[0] != ',');
        assert(rec_fields(s) =~= seq![fs[0]]);
        assert(rec_fields(s) =~= fs);
        assert(rec_len(s) == field_len(s) + 1);
    } else {
        let fs1 = fs.drop_first();
        assert(emit_fields_rest(fs1) =~= seq![','] + emit_field(fs1[0], false) + emit_fields_rest(
            fs1.drop_first(),
        ));
        assert(tail[0] == ',');
        lemma_field_round(fs[0], lone, tail);
        let r = s.skip(field_len(s) as int);
        assert(r =~= tail);
        assert(r[0] == ',');
        let s1 = r.drop_first();
        assert(s1 =~= emit_field(fs1[0], false) + emit_fields_rest(fs1.drop_first()) + seq!['\n']
            + more);
        lemma_record_round(fs1, false, more);
        assert(rec_fields(s1) == fs1);
        assert(rec_fields(s) =~= seq![fs[0]] + rec_fields(s1));
        assert(rec_fields(s) =~= fs);
        assert(rec_len(s) == field_len(s) + 1 + rec_len(s1));
        assert(emit_fields_rest(fs1).len() == 1 + emit_field(fs1[0], false).len()
            + emit_fields_rest(fs1.drop_first()).len());
    }
}

/// An emitted record line is never empty and never starts with a line break.
pub proof fn lemma_record_line_shape(fs: Seq<Seq<char>>)
    requires
        fs.len() >= 1,
    ensures
        emit_record(fs).len() >= 1,
        emit_record(fs)[0] != '\n',
        emit_record(fs)[0] != '\r',
{
    let e0 = emit_field(fs[0], fs.len() == 1);
    if !plain_field(fs[0]) || (fs.len() == 1 && fs[0].len() == 0) {
        assert(e0 =~= seq!['"'] + esc(fs[0]) + seq!['"']);
        assert(e0[0] == '"');
        assert(emit_record(fs)[0] == '"');
    } else if fs[0].len() > 0 {
        assert(e0 =~= fs[0]);
        assert(!is_special(fs[0][0]));
        assert(emit_record(fs)[0] == fs[0][0]);
    } else {
        assert(fs.len() >= 2);
        assert(e0 =~= Seq::<char>::empty());
        assert(emit_fields_rest(fs.drop_first())[0] == ',');
        assert(emit_record(fs)[0] == ',');
    }
}

/// A record with at least one field.
pub open spec fn nonempty_record(fs: Seq<Seq<char>>) -> bool {
    fs.len() >= 1
}

/// Emitting any table of non-empty records and parsing the text back yields
/// the table unchanged.
pub proof fn lemma_emit_parse_round(rs: Seq<Seq<Seq<char>>>)
    requires
        forall|i: int| 0 <= i < rs.len() ==> nonempty_record(#[trigger] rs[i]),
    ensures
        parse_records(emit_records(rs)) == rs,
    decreases rs.len(),
{
    if rs.len() == 0 {
    } else {
        let fs = rs[0];
        let more = emit_records(rs.drop_first());
        let line = emit_record(fs);
        let s = emit_records(rs);
        assert(s =~= line + seq!['\n'] + more);
        lemma_record_line_shape(fs);
        assert(s[0] == line[0]);
        assert(s[0] != '\n' && s[0] != '\r');
        assert(line =~= emit_field(fs[0], fs.len() == 1) + emit_fields_rest(fs.drop_first()));
        assert(s =~= emit_field(fs[0], fs.len() == 1) + emit_fields_rest(fs.drop_first())
            + seq!['\n'] + more);
        lemma_record_round(fs, fs.len() == 1, more);
        assert(rec_fields(s) == fs);
        assert(rec_len(s) == line.len() + 1);
        assert(s.skip(rec_len(s) as int) =~= more);
        lemma_emit_parse_round(rs.drop_first());
        assert(parse_records(s) =~= seq![fs] + parse_records(more));
        assert(parse_records(s) =~= rs);
    }
}

// ---------------------------------------------------------------------------
// Executable emitter.
// ---------------------------------------------------------------------------
/// Escaping distributes over appending one character.
proof fn lemma_esc_snoc(s: Seq<char>, c: char)
    ensures
        esc(s.push(c)) == esc(s) + (if c == '"' {
            seq!['"', '"']
        } else {
            seq![c]
        }),
    decreases s.len(),
{
    if s.len() == 0 {
        assert(s.push(c).drop_first() =~= Seq::<char>::empty());
        assert(esc(Seq::<char>::empty()) =~= Seq::<char>::empty());
        assert(esc(s) =~= Seq::<char>::empty());
        assert(s.push(c)[0] == c);
        if c == '"' {
            assert(esc(s.push(c)) =~= seq!['"', '"'] + esc(s.push(c).drop_first()));
            assert(esc(s.push(c)) =~= seq!['"', '"']);
        } else {
            assert(esc(s.push(c)) =~= seq![c] + esc(s.push(c).drop_first()));
            assert(esc(s.push(c)) =~= seq![c]);
        }
    } else {
        lemma_esc_snoc(s.drop_first(), c);
        assert(s.push(c).drop_first() =~= s.drop_first().push(c));
        assert(s.push(c)[0] == s[0]);
        if s[0] == '"' {
            assert(esc(s.push(c)) =~= seq!['"', '"'] + esc(s.drop_first().push(c)));
            assert(esc(s.push(c)) =~= esc(s) + esc(s.drop_first().push(c)).skip(
                esc(s.drop_first()).len() as int,
            ));
        }
        assert(esc(s.push(c)) =~= esc(s) + (if c == '"' {
            seq!['"', '"']
        } else {
            seq![c]
        }));
    }
}

/// Whether a field can stand unquoted.
fn field_is_plain(f: &Vec<char>) -> (r: bool)
    ensures
        r == plain_field(f@),
{
    let mut i: usize = 0;
    while i < f.len()
        invariant
            0 <= i <= f@.len(),
            forall|j: int| 0 <= j < i ==> !is_special(#[trigger] f@[j]),
        decreases f@.len() - i,
    {
        let c = f[i];
        if c == ',' || c == '"' || c == '\n' || c == '\r' {
            return false;
        }
        i = i + 1;
    }
    true
}

/// Append one emitted field.
fn push_field(out: &mut Vec<char>, f: &Vec<char>, lone: bool)
    ensures
        final(out)@ == old(out)@ + emit_field(f@, lone),
{
    let plain = field_is_plain(f);
    if !plain || (lone && f.len() == 0) {
        let ghost base = out@;
        out.push('"');
        let mut i: usize = 0;
        while i < f.len()
            invariant
                0 <= i <= f@.len(),
                out@ == base + seq!['"'] + esc(f@.take(i as int)),
            decreases f@.len() - i,
        {
            let c = f[i];
            if c == '"' {
                out.push('"');
                out.push('"');
            } else {
                out.push(c);
            }
            proof {
                lemma_esc_snoc(f@.take(i as int), c);
                assert(f@.take(i + 1) =~= f@.take(i as int).push(c));
            }
            i = i + 1;
        }
        out.push('"');
        proof {
            assert(f@.take(f@.len() as int) =~= f@);
            assert(out@ =~= old(out)@ + emit_field(f@, lone));
        }
    } else {
        let mut i: usize = 0;
        while i < f.len()
            invariant
                0 <= i <= f@.len(),
                out@ == old(out)@ + f@.take(i as int),
            decreases f@.len() - i,
        {
            out.push(f[i]);
            proof {
                assert(f@.take(i + 1) =~= f@.take(i as int).push(f@[i as int]));
            }
            i = i + 1;
        }
        proof {
            assert(f@.take(f@.len() as int) =~= f@);
        }
    }
}

/// Append one emitted record line and its newline.
fn push_record(out: &mut Vec<char>, fields: &Vec<Vec<char>>)
    ensures
        final(out)@ == old(out)@ + emit_record(fields.deep_view()) + seq!['\n'],
{
    let ghost fs = fields.deep_view();
    if fields.len() == 0 {
        out.push('\n');
        return ;
    }
    let lone = fields.len() == 1;
    push_field(out, &fields[0], lone);
    proof {
        assert(fs[0] == fields@[0]@);
    }
    let mut j: usize = 1;
    while j < fields.len()
        invariant
            1 <= j <= fields@.len(),
            fs == fields.deep_view(),
            fs.len() == fields@.len(),
            out@ == old(out)@ + emit_field(fs[0], fs.len() == 1) + emit_fields_rest(
                fs.subrange(1, j as int),
            ),
        decreases fields@.len() - j,
    {
        out.push(',');
        push_field(out, &fields[j], false);
        proof {
            assert(fs[j as int] == fields@[j as int]@);
            lemma_emit_fields_rest_snoc(fs.subrange(1, j as int), fs[j as int]);
            assert(fs.subrange(1, j + 1) =~= fs.subrange(1, j as int).push(fs[j as int]));
        }
        j = j + 1;
    }
    out.push('\n');
    proof {
        assert(fs.subrange(1, fs.len() as int) =~= fs.drop_first());
        assert(out@ =~= old(out)@ + emit_record(fs) + seq!['\n']);
    }
}

/// Comma-joined emission distributes over appending one field.
proof fn lemma_emit_fields_rest_snoc(fs: Seq<Seq<char>>, f: Seq<char>)
    ensures
        emit_fields_rest(fs.push(f)) == emit_fields_rest(fs) + seq![','] + emit_field(f, false),
    decreases fs.len(),
{
    if fs.len() == 0 {
        assert(fs.push(f)[0] == f);
        assert(fs.push(f).drop_first() =~= Seq::<Seq<char>>::empty());
        assert(emit_fields_rest(Seq::<Seq<char>>::empty()) =~= Seq::<char>::empty());
        assert(emit_fields_rest(fs.push(f)) =~= seq![','] + emit_field(f, false)
            + emit_fields_rest(fs.push(f).drop_first()));
        assert(emit_fields_rest(fs.push(f)) =~= emit_fields_rest(fs) + seq![','] + emit_field(
            f,
            false,
        ));
    } else {
        lemma_emit_fields_rest_snoc(fs.drop_first(), f);
        assert(fs.push(f).drop_first() =~= fs.drop_first().push(f));
        assert(fs.push(f)[0] == fs[0]);
        assert(emit_fields_rest(fs.push(f)) =~= emit_fields_rest(fs) + seq![','] + emit_field(
            f,
            false,
        ));
    }
}

/// The emitted text grows record by record.
proof fn lemma_emit_records_snoc(rs: Seq<Seq<Seq<char>>>, r: Seq<Seq<char>>)
    ensures
        emit_records(rs.push(r)) == emit_records(rs) + emit_record(r) + seq!['\n'],
    decreases rs.len(),
{
    if rs.len() == 0 {
        assert(rs.push(r)[0] == r);
        assert(rs.push(r).drop_first() =~= Seq::<Seq<Seq<char>>>::empty());
        assert(emit_records(Seq::<Seq<Seq<char>>>::empty()) =~= Seq::<char>::empty());
        assert(emit_records(rs.push(r)) =~= emit_record(r) + seq!['\n'] + emit_records(
            rs.push(r).drop_first(),
        ));
        assert(emit_records(rs.push(r)) =~= emit_records(rs) + emit_record(r) + seq!['\n']);
    } else {
        lemma_emit_records_snoc(rs.drop_first(), r);
        assert(rs.push(r).drop_first() =~= rs.drop_first().push(r));
        assert(rs.push(r)[0] == rs[0]);
        assert(emit_records(rs.push(r)) =~= emit_records(rs) + emit_record(r) + seq!['\n']);
    }
}

/// Emit a whole table as CSV text.
pub fn emit_csv(records: &Vec<Vec<Vec<char>>>) -> (out: Vec<char>)
    ensures
        out@ == emit_records(records.deep_view()),
{
    let ghost rs = records.deep_view();
    let mut out: Vec<char> = Vec::new();
    let mut i: usize = 0;
    while i < records.len()
        invariant
            0 <= i <= records@.len(),
            rs == records.deep_view(),
            rs.len() == records@.len(),
            out@ == emit_records(rs.take(i as int)),
        decreases records@.len() - i,
    {
        push_record(&mut out, &records[i]);
        proof {
            assert(rs[i as int] == records@[i as int].deep_view());
            lemma_emit_records_snoc(rs.take(i as int), rs[i as int]);
            assert(rs.take(i + 1) =~= rs.take(i as int).push(rs[i as int]));
        }
        i = i + 1;
    }
    proof {
        assert(rs.take(rs.len() as int) =~= rs);
    }
    out
}

// ---------------------------------------------------------------------------
// Executable parser.
// ---------------------------------------------------------------------------
/// Scan one field starting at `pos`; returns its value and the position
/// just past it.
fn scan_field(s: &Vec<char>, pos: usize) -> (res: (Vec<char>, usize))
    requires
        pos <= s@.len(),
    ensures
        res.0@ == field_val(s@.skip(pos as int)),
        res.1 == pos + field_len(s@.skip(pos as int)),
        res.1 <= s@.len(),
{
    let ghost suff = s@.skip(pos as int);
    let mut out: Vec<char> = Vec::new();
    if pos < s.len() && s[pos] == '"' {
        let mut i: usize = pos + 1;
        loop
            invariant_except_break
                pos + 1 <= i <= s@.len(),
                q_val(s@.skip(pos + 1)) == out@ + q_val(s@.skip(i as int)),
                q_len(s@.skip(pos + 1)) == i - pos - 1 + q_len(s@.skip(i as int)),
            ensures
                out@ == q_val(s@.skip(pos + 1)),
                i == pos + 1 + q_len(s@.skip(pos + 1)),
                i <= s@.len(),
            decreases s@.len() - i,
        {
            if i >= s.len() {
                proof {
                    assert(s@.skip(i as int) =~= Seq::<char>::empty());
                }
                break ;
            }
            let c = s[i];
            proof {
                assert(s@.skip(i as int)[0] == s@[i as int]);
            }
            if c == '"' {
                if i + 1 < s.len() && s[i + 1] == '"' {
                    out.push('"');
                    proof {
                        assert(s@.skip(i as int)[1] == s@[i + 1]);
                        assert(s@.skip(i as int).skip(2) =~= s@.skip(i + 2));
                    }
                    i = i + 2;
                } else {
                    proof {
                        if i + 1 < s@.len() {
                            assert(s@.skip(i as int)[1] == s@[i + 1]);
                        }
                        assert(q_len(s@.skip(i as int)) == 1);
                        assert(q_val(s@.skip(i as int)) =~= Seq::<char>::empty());
                    }
                    i = i + 1;
                    break ;
                }
            } else {
                out.push(c);
                proof {
                    assert(s@.skip(i as int).drop_first() =~= s@.skip(i + 1));
                }
                i = i + 1;
            }
        }
        proof {
            assert(suff[0] == '"');
            assert(suff.drop_first() =~= s@.skip(pos + 1));
        }
        (out, i)
    } else {
        let mut i: usize = pos;
        loop
            invariant_except_break
                pos <= i <= s@.len(),
                unq_len(s@.skip(pos as int)) == i - pos + unq_len(s@.skip(i as int)),
                out@ == s@.subrange(pos as int, i as int),
            ensures
                i == pos + unq_len(s@.skip(pos as int)),
                out@ == s@.subrange(pos as int, i as int),
                i <= s@.len(),
            decreases s@.len() - i,
        {
            if i >= s.len() {
                proof {
                    assert(s@.skip(i as int) =~= Seq::<char>::empty());
                }
                break ;
            }
            let c = s[i];
            proof {
                assert(s@.skip(i as int)[0] == s@[i as int]);
            }
            if c == ',' || c == '\n' || c == '\r' {
                break ;
            }
            out.push(c);
            proof {
                assert(s@.skip(i as int).drop_first() =~= s@.skip(i + 1));
                assert(s@.subrange(pos as int, i + 1) =~= s@.subrange(pos as int, i as int).push(
                    c,
                ));
            }
            i = i + 1;
        }
        proof {
            if suff.len() > 0 {
                assert(suff[0] == s@[pos as int]);
            }
            lemma_unq_len_bound(suff);
            assert(unq_val(suff) =~= s@.subrange(pos as int, pos + unq_len(suff)));
        }
        (out, i)
    }
}

/// Scan one record starting at `pos`, which must not be at a line break;
/// returns its fields and the position just past its terminator.
fn scan_record(s: &Vec<char>, pos: usize) -> (res: (Vec<Vec<char>>, usize))
    requires
        pos < s@.len(),
    ensures
        res.0.deep_view() == rec_fields(s@.skip(pos as int)),
        res.1 == pos + rec_len(s@.skip(pos as int)),
        pos < res.1 <= s@.len(),
{
    let mut fields: Vec<Vec<char>> = Vec::new();
    let mut fpos: usize = pos;
    let newpos: usize;
    loop
        invariant_except_break
            pos <= fpos <= s@.len(),
            rec_fields(s@.skip(pos as int)) == fields.deep_view() + rec_fields(
                s@.skip(fpos as int),
            ),
            rec_len(s@.skip(pos as int)) == fpos - pos + rec_len(s@.skip(fpos as int)),
        ensures
            fields.deep_view() == rec_fields(s@.skip(pos as int)),
            newpos == pos + rec_len(s@.skip(pos as int)),
            newpos <= s@.len(),
        decreases s@.len() - fpos,
    {
        let ghost fsuff = s@.skip(fpos as int);
        let ghost fields_before = fields.deep_view();
        let (val, np) = scan_field(s, fpos);
        proof {
            lemma_field_len_bound(fsuff);
            assert(fsuff.skip(field_len(fsuff) as int) =~= s@.skip(np as int));
        }
        fields.push(val);
        proof {
            assert(fields.deep_view() =~~= fields_before.push(val@));
        }
        if np < s.len() && s[np] == ',' {
            proof {
                assert(s@.skip(np as int)[0] == s@[np as int]);
                assert(s@.skip(np as int).drop_first() =~= s@.skip(np + 1));
                assert(rec_fields(fsuff) =~= seq![field_val(fsuff)] + rec_fields(s@.skip(np + 1)));
                assert(fields.deep_view() + rec_fields(s@.skip(np + 1)) =~= fields_before
                    + rec_fields(fsuff));
            }
            fpos = np + 1;
        } else {
            proof {
                if np < s@.len() {
                    assert(s@.skip(np as int)[0] == s@[np as int]);
                    if np + 1 < s@.len() {
                        assert(s@.skip(np as int)[1] == s@[np + 1]);
                    }
                }
                assert(rec_fields(fsuff) =~= seq![field_val(fsuff)]);
                assert(fields.deep_view() =~= fields_before + rec_fields(fsuff));
            }
            if np >= s.len() {
                newpos = np;
            } else if s[np] == '\r' && np + 1 < s.len() && s[np + 1] == '\n' {
                newpos = np + 2;
            } else {
                newpos = np + 1;
            }
            break ;
        }
    }
    proof {
        lemma_rec_len_bound(s@.skip(pos as int));
    }
    (fields, newpos)
}

/// Parse CSV text into its records.
#[verifier::loop_isolation(false)]
pub fn parse_csv_chars(s: &Vec<char>) -> (rs: Vec<Vec<Vec<char>>>)
    ensures
        rs.deep_view() == parse_records(s@),
{
    let mut out: Vec<Vec<Vec<char>>> = Vec::new();
    let mut pos: usize = 0;
    proof {
        assert(s@.skip(0) =~= s@);
        assert(out.deep_view() =~~= Seq::<Seq<Seq<char>>>::empty());
    }
    while pos < s.len()
        invariant
            0 <= pos <= s@.len(),
            parse_records(s@) == out.deep_view() + parse_records(s@.skip(pos as int)),
        decreases s@.len() - pos,
    {
        let c = s[pos];
        proof {
            assert(s@.skip(pos as int)[0] == s@[pos as int]);
        }
        if c == '\n' {
            proof {
                assert(s@.skip(pos as int).drop_first() =~= s@.skip(pos + 1));
            }
            pos = pos + 1;
        } else if c == '\r' {
            if pos + 1 < s.len() && s[pos + 1] == '\n' {
                proof {
                    assert(s@.skip(pos as int)[1] == s@[pos + 1]);
                    assert(s@.skip(pos as int).skip(2) =~= s@.skip(pos + 2));
                }
                pos = pos + 2;
            } else {
                proof {
                    if pos + 1 < s@.len() {
                        assert(s@.skip(pos as int)[1] == s@[pos + 1]);
                    }
                    assert(s@.skip(pos as int).drop_first() =~= s@.skip(pos + 1));
                }
                pos = pos + 1;
            }
        } else {
            let ghost out_before = out.deep_view();
            let ghost suff = s@.skip(pos as int);
            let (fields, np) = scan_record(s, pos);
            out.push(fields);
            proof {
                lemma_rec_len_bound(suff);
                assert(out.deep_view() =~~= out_before.push(fields.deep_view()));
                assert(suff.skip(rec_len(suff) as int) =~= s@.skip(np as int));
                assert(parse_records(suff) =~= seq![rec_fields(suff)] + parse_records(
                    s@.skip(np as int),
                ));
                assert(out.deep_view() + parse_records(s@.skip(np as int)) =~= out_before
                    + parse_records(suff));
            }
            pos = np;
        }
    }
    proof {
        assert(s@.skip(pos as int) =~= Seq::<char>::empty());
        assert(parse_records(s@) =~= out.deep_view());
    }
    out
}

} // verus!
