//! The session codec: a session is laid out in a length-prefixed byte
//! format, then wrapped in base64 so it can live inside one environment
//! variable.  Decoding either reproduces the exact session or fails;
//! it never returns a best-effort reconstruction.

use vstd::prelude::*;
use vstd::bytes::{spec_u64_to_le_bytes, spec_u64_from_le_bytes, lemma_auto_spec_u64_to_from_le_bytes,
    u64_to_le_bytes, u64_from_le_bytes};
use vstd::utf8::{encode_utf8, decode_utf8, valid_utf8, encode_utf8_valid_utf8,
    encode_utf8_decode_utf8};
use vstd::string::{StrSliceExecFns, StringExecFns};
use vstd::slice::slice_subrange;
use base64::Engine;
use crate::session::{Session, TrackedChange, ChangeView, SESSION_VAR};
use crate::text::lex_lt;
use crate::vars::VarMap;

verus! {

/// The base64 text of a byte sequence, as the standard alphabet with
/// padding produces it.
pub uninterp spec fn b64_encoding(bytes: Seq<u8>) -> Seq<char>;

/// A character of the base64 alphabet with padding: a letter, a digit,
/// `+`, `/` or `=`.
pub open spec fn is_b64_char(c: char) -> bool {
    let u = c as u32;
    (65 <= u && u <= 90) || (97 <= u && u <= 122) || (48 <= u && u <= 57) || u == 43 || u == 47
        || u == 61
}

/// Text made of base64 characters alone: safe to embed as a single
/// environment-variable value or inside a single-quoted shell word.
pub open spec fn text_safe(s: Seq<char>) -> bool {
    forall|i: int| 0 <= i < s.len() ==> is_b64_char(#[trigger] s[i])
}

/// Base64 text contains none of the characters that could break an
/// environment-variable value or a single-quoted shell word.
pub proof fn lemma_text_safe_embedding(s: Seq<char>)
    requires
        text_safe(s),
    ensures
        forall|i: int|
            0 <= i < s.len() ==> {
                &&& #[trigger] s[i] != '\''
                &&& s[i] != '"'
                &&& s[i] != '\\'
                &&& s[i] != '\n'
                &&& s[i] != '\u{0}'
            },
{
    assert forall|i: int|
        0 <= i < s.len() implies {
        &&& #[trigger] s[i] != '\''
        &&& s[i] != '"'
        &&& s[i] != '\\'
        &&& s[i] != '\n'
        &&& s[i] != '\u{0}'
    } by {
        assert(is_b64_char(s[i]));
        assert(('\'' as u32) == 39 && ('"' as u32) == 34 && ('\\' as u32) == 92 && ('\n' as u32)
            == 10 && ('\u{0}' as u32) == 0);
    }
}

/// Relies on base64's `STANDARD` engine `encode`: the base64 text of the
/// given bytes, a pure function of them, drawn entirely from the base64
/// alphabet with padding.
#[verifier::external_body]
fn b64_encode(bytes: &Vec<u8>) -> (r: String)
    ensures
        r@ == b64_encoding(bytes@),
        text_safe(r@),
{
    base64::engine::general_purpose::STANDARD.encode(bytes.as_slice())
}

/// Relies on base64's `STANDARD` engine `decode`: it requires canonical
/// padding and rejects trailing bits, so it succeeds exactly on encoder
/// output — on the encoding of any byte sequence it returns exactly that
/// sequence, and whenever it succeeds its input was the encoding of the
/// bytes it returned.
#[verifier::external_body]
fn b64_decode(s: &str) -> (r: Option<Vec<u8>>)
    ensures
        r is Some <== exists|bs: Seq<u8>| s@ == b64_encoding(bs),
        r matches Some(v) ==> forall|bs: Seq<u8>| s@ == b64_encoding(bs) ==> v@ == bs,
        r matches Some(v) ==> s@ == b64_encoding(v@),
{
    match base64::engine::general_purpose::STANDARD.decode(s) {
        Ok(v) => Some(v),
        Err(_) => None,
    }
}

/// Relies on core::str::from_utf8: it succeeds exactly on valid UTF-8 and
/// yields its decoding.
#[verifier::external_body]
fn utf8_to_str(bytes: &[u8]) -> (r: Option<&str>)
    ensures
        match r {
            Some(s) => valid_utf8(bytes@) && s@ == decode_utf8(bytes@),
            None => !valid_utf8(bytes@),
        },
{
    core::str::from_utf8(bytes).ok()
}

/// What the codec reads and writes: the session's fields with both maps
/// as their ordered name/value entries.
pub struct SessionData {
    pub id: Seq<char>,
    pub created_at: u64,
    pub baseline: Seq<(Seq<char>, u64)>,
    pub ledger: Seq<(Seq<char>, ChangeView)>,
}

impl Session {
    pub open spec fn data(&self) -> SessionData {
        SessionData {
            id: self.id@,
            created_at: self.created_at,
            baseline: self.baseline.kvs(),
            ledger: self.ledger.kvs(),
        }
    }
}

/// A string whose UTF-8 form fits behind a 64-bit length prefix.
pub open spec fn string_fits(s: Seq<char>) -> bool {
    encode_utf8(s).len() <= u64::MAX
}

pub open spec fn change_fits(c: ChangeView) -> bool {
    match c {
        ChangeView::Assign { value, previous } => string_fits(value) && (match previous {
            Some(p) => string_fits(p),
            None => true,
        }),
        ChangeView::Unset { previous } => string_fits(previous),
    }
}

pub open spec fn sorted_b(s: Seq<(Seq<char>, u64)>) -> bool {
    forall|i: int, j: int|
        #![trigger s[i], s[j]]
        0 <= i < j < s.len() ==> lex_lt(s[i].0, s[j].0)
}

pub open spec fn sorted_l(s: Seq<(Seq<char>, ChangeView)>) -> bool {
    forall|i: int, j: int|
        #![trigger s[i], s[j]]
        0 <= i < j < s.len() ==> lex_lt(s[i].0, s[j].0)
}

/// Session data that the codec can reproduce exactly: both maps sorted,
/// the reserved variable absent from the baseline, and every piece small
/// enough for its length prefix.
pub open spec fn good_data(d: SessionData) -> bool {
    &&& sorted_b(d.baseline)
    &&& sorted_l(d.ledger)
    &&& forall|i: int| 0 <= i < d.baseline.len() ==> (#[trigger] d.baseline[i]).0 != SESSION_VAR@
    &&& string_fits(d.id)
    &&& d.baseline.len() <= u64::MAX
    &&& d.ledger.len() <= u64::MAX
    &&& forall|i: int| 0 <= i < d.baseline.len() ==> string_fits((#[trigger] d.baseline[i]).0)
    &&& forall|i: int|
        0 <= i < d.ledger.len() ==> string_fits((#[trigger] d.ledger[i]).0) && change_fits(
            d.ledger[i].1,
        )
}

pub open spec fn spec_ser_u64(x: u64) -> Seq<u8> {
    spec_u64_to_le_bytes(x)
}

pub open spec fn spec_ser_chars(s: Seq<char>) -> Seq<u8> {
    spec_ser_u64(encode_utf8(s).len() as u64) + encode_utf8(s)
}

pub open spec fn spec_ser_change(c: ChangeView) -> Seq<u8> {
    match c {
        ChangeView::Assign { value, previous } => match previous {
            None => seq![0u8] + spec_ser_chars(value),
            Some(p) => seq![1u8] + spec_ser_chars(value) + spec_ser_chars(p),
        },
        ChangeView::Unset { previous } => seq![2u8] + spec_ser_chars(previous),
    }
}

pub open spec fn spec_ser_bentries(s: Seq<(Seq<char>, u64)>) -> Seq<u8>
    decreases s.len(),
{
    if s.len() == 0 {
        Seq::empty()
    } else {
        spec_ser_chars(s[0].0) + spec_ser_u64(s[0].1) + spec_ser_bentries(s.drop_first())
    }
}

pub open spec fn spec_ser_lentries(s: Seq<(Seq<char>, ChangeView)>) -> Seq<u8>
    decreases s.len(),
{
    if s.len() == 0 {
        Seq::empty()
    } else {
        spec_ser_chars(s[0].0) + spec_ser_change(s[0].1) + spec_ser_lentries(s.drop_first())
    }
}

pub open spec fn spec_ser_session(d: SessionData) -> Seq<u8> {
    spec_ser_chars(d.id) + spec_ser_u64(d.created_at) + spec_ser_u64(d.baseline.len() as u64)
        + spec_ser_bentries(d.baseline) + spec_ser_u64(d.ledger.len() as u64) + spec_ser_lentries(
        d.ledger,
    )
}

fn ser_u64(out: &mut Vec<u8>, x: u64)
    ensures
        final(out)@ == old(out)@ + spec_ser_u64(x),
{
    let mut b = u64_to_le_bytes(x);
    out.append(&mut b);
}

fn ser_str(out: &mut Vec<u8>, s: &str)
    ensures
        final(out)@ == old(out)@ + spec_ser_chars(s@),
        string_fits(s@),
{
    let mut b = s.as_bytes_vec();
    let n = b.len();
    ser_u64(out, n as u64);
    out.append(&mut b);
    proof {
        assert(final(out)@ =~= old(out)@ + spec_ser_chars(s@));
    }
}

fn ser_change(out: &mut Vec<u8>, c: &TrackedChange)
    ensures
        final(out)@ == old(out)@ + spec_ser_change(c@),
        change_fits(c@),
{
    match c {
        TrackedChange::Assign { value, previous } => match previous {
            None => {
                out.push(0u8);
                ser_str(out, value.as_str());
                proof {
                    assert(final(out)@ =~= old(out)@ + spec_ser_change(c@));
                }
            },
            Some(p) => {
                out.push(1u8);
                ser_str(out, value.as_str());
                ser_str(out, p.as_str());
                proof {
                    assert(final(out)@ =~= old(out)@ + spec_ser_change(c@));
                }
            },
        },
        TrackedChange::Unset { previous } => {
            out.push(2u8);
            ser_str(out, previous.as_str());
            proof {
                assert(final(out)@ =~= old(out)@ + spec_ser_change(c@));
            }
        },
    }
}

proof fn lemma_ser_bentries_concat(s1: Seq<(Seq<char>, u64)>, s2: Seq<(Seq<char>, u64)>)
    ensures
        spec_ser_bentries(s1 + s2) == spec_ser_bentries(s1) + spec_ser_bentries(s2),
    decreases s1.len(),
{
    if s1.len() == 0 {
        assert(s1 + s2 =~= s2);
        assert(spec_ser_bentries(s1) + spec_ser_bentries(s2) =~= spec_ser_bentries(s2));
    } else {
        assert((s1 + s2)[0] == s1[0]);
        assert((s1 + s2).drop_first() =~= s1.drop_first() + s2);
        lemma_ser_bentries_concat(s1.drop_first(), s2);
        assert(spec_ser_bentries(s1 + s2) =~= spec_ser_bentries(s1) + spec_ser_bentries(s2));
    }
}

proof fn lemma_ser_lentries_concat(s1: Seq<(Seq<char>, ChangeView)>, s2: Seq<(Seq<char>, ChangeView)>)
    ensures
        spec_ser_lentries(s1 + s2) == spec_ser_lentries(s1) + spec_ser_lentries(s2),
    decreases s1.len(),
{
    if s1.len() == 0 {
        assert(s1 + s2 =~= s2);
        assert(spec_ser_lentries(s1) + spec_ser_lentries(s2) =~= spec_ser_lentries(s2));
    } else {
        assert((s1 + s2)[0] == s1[0]);
        assert((s1 + s2).drop_first() =~= s1.drop_first() + s2);
        lemma_ser_lentries_concat(s1.drop_first(), s2);
        assert(spec_ser_lentries(s1 + s2) =~= spec_ser_lentries(s1) + spec_ser_lentries(s2));
    }
}

fn ser_baseline(out: &mut Vec<u8>, m: &VarMap<u64>)
    ensures
        final(out)@ == old(out)@ + spec_ser_bentries(m.kvs()),
        forall|i: int| 0 <= i < m.kvs().len() ==> string_fits((#[trigger] m.kvs()[i]).0),
{
    let n = m.entries.len();
    let mut i: usize = 0;
    proof {
        assert(m.kvs().take(0) =~= Seq::<(Seq<char>, u64)>::empty());
    }
    while i < n
        invariant
            n == m.entries@.len(),
            n == m.kvs().len(),
            i <= n,
            out@ == old(out)@ + spec_ser_bentries(m.kvs().take(i as int)),
            forall|j: int| 0 <= j < i ==> string_fits((#[trigger] m.kvs()[j]).0),
        decreases n - i,
    {
        let e = &m.entries[i];
        let ghost pre = out@;
        ser_str(out, e.0.as_str());
        ser_u64(out, e.1);
        proof {
            assert(m.kvs()[i as int] == (m.entries@[i as int].0@, m.entries@[i as int].1@));
            assert(m.kvs().take(i as int + 1) =~= m.kvs().take(i as int) + seq![
                m.kvs()[i as int],
            ]);
            lemma_ser_bentries_concat(m.kvs().take(i as int), seq![m.kvs()[i as int]]);
            assert(seq![m.kvs()[i as int]].drop_first() =~= Seq::<(Seq<char>, u64)>::empty());
            assert(spec_ser_bentries(Seq::<(Seq<char>, u64)>::empty()) =~= Seq::<u8>::empty());
            assert(seq![m.kvs()[i as int]][0] == m.kvs()[i as int]);
            assert(spec_ser_bentries(seq![m.kvs()[i as int]]) =~= spec_ser_chars(
                m.kvs()[i as int].0,
            ) + spec_ser_u64(m.kvs()[i as int].1));
            assert(out@ =~= old(out)@ + spec_ser_bentries(m.kvs().take(i as int + 1)));
        }
        i += 1;
    }
    proof {
        assert(m.kvs().take(n as int) =~= m.kvs());
    }
}

fn ser_ledger(out: &mut Vec<u8>, m: &VarMap<TrackedChange>)
    ensures
        final(out)@ == old(out)@ + spec_ser_lentries(m.kvs()),
        forall|i: int|
            0 <= i < m.kvs().len() ==> string_fits((#[trigger] m.kvs()[i]).0) && change_fits(
                m.kvs()[i].1,
            ),
{
    let n = m.entries.len();
    let mut i: usize = 0;
    proof {
        assert(m.kvs().take(0) =~= Seq::<(Seq<char>, ChangeView)>::empty());
    }
    while i < n
        invariant
            n == m.entries@.len(),
            n == m.kvs().len(),
            i <= n,
            out@ == old(out)@ + spec_ser_lentries(m.kvs().take(i as int)),
            forall|j: int|
                0 <= j < i ==> string_fits((#[trigger] m.kvs()[j]).0) && change_fits(
                    m.kvs()[j].1,
                ),
        decreases n - i,
    {
        let e = &m.entries[i];
        ser_str(out, e.0.as_str());
        ser_change(out, &e.1);
        proof {
            assert(m.kvs()[i as int] == (m.entries@[i as int].0@, m.entries@[i as int].1@));
            assert(m.kvs().take(i as int + 1) =~= m.kvs().take(i as int) + seq![
                m.kvs()[i as int],
            ]);
            lemma_ser_lentries_concat(m.kvs().take(i as int), seq![m.kvs()[i as int]]);
            assert(seq![m.kvs()[i as int]].drop_first() =~= Seq::<
                (Seq<char>, ChangeView),
            >::empty());
            assert(spec_ser_lentries(Seq::<(Seq<char>, ChangeView)>::empty()) =~= Seq::<u8>::empty());
            assert(seq![m.kvs()[i as int]][0] == m.kvs()[i as int]);
            assert(spec_ser_lentries(seq![m.kvs()[i as int]]) =~= spec_ser_chars(
                m.kvs()[i as int].0,
            ) + spec_ser_change(m.kvs()[i as int].1));
            assert(out@ =~= old(out)@ + spec_ser_lentries(m.kvs().take(i as int + 1)));
        }
        i += 1;
    }
    proof {
        assert(m.kvs().take(n as int) =~= m.kvs());
    }
}

pub open spec fn spec_parse_u64(b: Seq<u8>, pos: int) -> Option<(u64, int)> {
    if 0 <= pos && pos + 8 <= b.len() {
        Some((spec_u64_from_le_bytes(b.subrange(pos, pos + 8)), pos + 8))
    } else {
        None
    }
}

pub open spec fn spec_parse_chars(b: Seq<u8>, pos: int) -> Option<(Seq<char>, int)> {
    match spec_parse_u64(b, pos) {
        None => None,
        Some((n, p)) => if p + n <= b.len() && valid_utf8(b.subrange(p, p + n as int)) {
            Some((decode_utf8(b.subrange(p, p + n as int)), p + n as int))
        } else {
            None
        },
    }
}

pub open spec fn spec_parse_change(b: Seq<u8>, pos: int) -> Option<(ChangeView, int)> {
    if 0 <= pos && pos < b.len() {
        let tag = b[pos];
        if tag == 0 {
            match spec_parse_chars(b, pos + 1) {
                Some((v, p)) => Some((ChangeView::Assign { value: v, previous: None }, p)),
                None => None,
            }
        } else if tag == 1 {
            match spec_parse_chars(b, pos + 1) {
                Some((v, p1)) => match spec_parse_chars(b, p1) {
                    Some((pr, p2)) => Some(
                        (ChangeView::Assign { value: v, previous: Some(pr) }, p2),
                    ),
                    None => None,
                },
                None => None,
            }
        } else if tag == 2 {
            match spec_parse_chars(b, pos + 1) {
                Some((pr, p)) => Some((ChangeView::Unset { previous: pr }, p)),
                None => None,
            }
        } else {
            None
        }
    } else {
        None
    }
}

pub open spec fn spec_parse_bentries(b: Seq<u8>, pos: int, n: nat) -> Option<
    (Seq<(Seq<char>, u64)>, int),
>
    decreases n,
{
    if n == 0 {
        Some((Seq::empty(), pos))
    } else {
        match spec_parse_chars(b, pos) {
            Some((k, p1)) => match spec_parse_u64(b, p1) {
                Some((v, p2)) => match spec_parse_bentries(b, p2, (n - 1) as nat) {
                    Some((rest, p3)) => Some((seq![(k, v)] + rest, p3)),
                    None => None,
                },
                None => None,
            },
            None => None,
        }
    }
}

pub open spec fn spec_parse_lentries(b: Seq<u8>, pos: int, n: nat) -> Option<
    (Seq<(Seq<char>, ChangeView)>, int),
>
    decreases n,
{
    if n == 0 {
        Some((Seq::empty(), pos))
    } else {
        match spec_parse_chars(b, pos) {
            Some((k, p1)) => match spec_parse_change(b, p1) {
                Some((c, p2)) => match spec_parse_lentries(b, p2, (n - 1) as nat) {
                    Some((rest, p3)) => Some((seq![(k, c)] + rest, p3)),
                    None => None,
                },
                None => None,
            },
            None => None,
        }
    }
}

pub open spec fn spec_parse_session(b: Seq<u8>) -> Option<SessionData> {
    match spec_parse_chars(b, 0) {
        Some((id, p1)) => match spec_parse_u64(b, p1) {
            Some((ca, p2)) => match spec_parse_u64(b, p2) {
                Some((bn, p3)) => match spec_parse_bentries(b, p3, bn as nat) {
                    Some((bk, p4)) => match spec_parse_u64(b, p4) {
                        Some((ln, p5)) => match spec_parse_lentries(b, p5, ln as nat) {
                            Some((lk, p6)) => if p6 == b.len() {
                                Some(
                                    SessionData {
                                        id,
                                        created_at: ca,
                                        baseline: bk,
                                        ledger: lk,
                                    },
                                )
                            } else {
                                None
                            },
                            None => None,
                        },
                        None => None,
                    },
                    None => None,
                },
                None => None,
            },
            None => None,
        },
        None => None,
    }
}

/// A window into `b` equal to `w` makes every window into `w` a window
/// into `b`.
proof fn lemma_chunk(b: Seq<u8>, pos: int, w: Seq<u8>, off: int, len: int)
    requires
        0 <= pos,
        pos + w.len() <= b.len(),
        b.subrange(pos, pos + w.len() as int) == w,
        0 <= off,
        0 <= len,
        off + len <= w.len(),
    ensures
        b.subrange(pos + off, pos + off + len) == w.subrange(off, off + len),
{
    assert forall|i: int|
        #![trigger b.subrange(pos + off, pos + off + len)[i]]
        0 <= i < len implies b.subrange(pos + off, pos + off + len)[i] == w.subrange(
        off,
        off + len,
    )[i] by {
        assert(b.subrange(pos, pos + w.len() as int)[off + i] == b[pos + off + i]);
        assert(b.subrange(pos + off, pos + off + len)[i] == b[pos + off + i]);
        assert(w.subrange(off, off + len)[i] == w[off + i]);
    }
    assert(b.subrange(pos + off, pos + off + len) =~= w.subrange(off, off + len));
}

proof fn lemma_parse_u64_at(b: Seq<u8>, pos: int, x: u64)
    requires
        0 <= pos,
        pos + 8 <= b.len(),
        b.subrange(pos, pos + 8) == spec_ser_u64(x),
    ensures
        spec_parse_u64(b, pos) == Some((x, pos + 8)),
{
    lemma_auto_spec_u64_to_from_le_bytes();
}

proof fn lemma_parse_chars_at(b: Seq<u8>, pos: int, s: Seq<char>)
    requires
        0 <= pos,
        string_fits(s),
        pos + spec_ser_chars(s).len() <= b.len(),
        b.subrange(pos, pos + spec_ser_chars(s).len() as int) == spec_ser_chars(s),
    ensures
        spec_parse_chars(b, pos) == Some((s, pos + spec_ser_chars(s).len())),
{
    let u = encode_utf8(s);
    let n = u.len() as int;
    lemma_auto_spec_u64_to_from_le_bytes();
    assert(spec_ser_u64(n as u64).len() == 8);
    assert(spec_ser_chars(s).len() == 8 + n);
    assert(b.subrange(pos, pos + 8) =~= spec_ser_u64(n as u64));
    lemma_parse_u64_at(b, pos, n as u64);
    assert((n as u64) as int == n);
    lemma_chunk(b, pos, spec_ser_chars(s), 8, n);
    assert(spec_ser_chars(s).subrange(8, 8 + n) =~= u);
    encode_utf8_valid_utf8(s);
    encode_utf8_decode_utf8(s);
}

proof fn lemma_parse_change_at(b: Seq<u8>, pos: int, c: ChangeView)
    requires
        0 <= pos,
        change_fits(c),
        pos + spec_ser_change(c).len() <= b.len(),
        b.subrange(pos, pos + spec_ser_change(c).len() as int) == spec_ser_change(c),
    ensures
        spec_parse_change(b, pos) == Some((c, pos + spec_ser_change(c).len())),
{
    match c {
        ChangeView::Assign { value, previous } => match previous {
            None => {
                let sv = spec_ser_chars(value);
                assert(spec_ser_change(c).len() == 1 + sv.len());
                assert(b[pos] == spec_ser_change(c)[0]);
                assert(b[pos] == 0u8);
                lemma_chunk(b, pos, spec_ser_change(c), 1, sv.len() as int);
                assert(spec_ser_change(c).subrange(1, 1 + sv.len() as int) =~= sv);
                lemma_parse_chars_at(b, pos + 1, value);
            },
            Some(p) => {
                let sv = spec_ser_chars(value);
                let sp = spec_ser_chars(p);
                assert(spec_ser_change(c).len() == 1 + sv.len() + sp.len());
                assert(b[pos] == spec_ser_change(c)[0]);
                assert(b[pos] == 1u8);
                lemma_chunk(b, pos, spec_ser_change(c), 1, sv.len() as int);
                assert(spec_ser_change(c).subrange(1, 1 + sv.len() as int) =~= sv);
                lemma_parse_chars_at(b, pos + 1, value);
                lemma_chunk(b, pos, spec_ser_change(c), 1 + sv.len() as int, sp.len() as int);
                assert(spec_ser_change(c).subrange(
                    1 + sv.len() as int,
                    1 + sv.len() as int + sp.len() as int,
                ) =~= sp);
                lemma_parse_chars_at(b, pos + 1 + sv.len(), p);
            },
        },
        ChangeView::Unset { previous } => {
            let sp = spec_ser_chars(previous);
            assert(spec_ser_change(c).len() == 1 + sp.len());
            assert(b[pos] == spec_ser_change(c)[0]);
            assert(b[pos] == 2u8);
            lemma_chunk(b, pos, spec_ser_change(c), 1, sp.len() as int);
            assert(spec_ser_change(c).subrange(1, 1 + sp.len() as int) =~= sp);
            lemma_parse_chars_at(b, pos + 1, previous);
        },
    }
}

proof fn lemma_parse_bentries_at(b: Seq<u8>, pos: int, s: Seq<(Seq<char>, u64)>)
    requires
        0 <= pos,
        forall|i: int| 0 <= i < s.len() ==> string_fits((#[trigger] s[i]).0),
        pos + spec_ser_bentries(s).len() <= b.len(),
        b.subrange(pos, pos + spec_ser_bentries(s).len() as int) == spec_ser_bentries(s),
    ensures
        spec_parse_bentries(b, pos, s.len() as nat) == Some((s, pos + spec_ser_bentries(s).len())),
    decreases s.len(),
{
    if s.len() == 0 {
        assert(s =~= Seq::<(Seq<char>, u64)>::empty());
    } else {
        let e = s[0];
        let sk = spec_ser_chars(e.0);
        let sv = spec_ser_u64(e.1);
        let rest = s.drop_first();
        lemma_auto_spec_u64_to_from_le_bytes();
        let w = spec_ser_bentries(s);
        assert(w.len() == sk.len() + sv.len() + spec_ser_bentries(rest).len());
        lemma_chunk(b, pos, w, 0, sk.len() as int);
        assert(w.subrange(0, sk.len() as int) =~= sk);
        lemma_parse_chars_at(b, pos, e.0);
        lemma_chunk(b, pos, w, sk.len() as int, 8);
        assert(w.subrange(sk.len() as int, sk.len() as int + 8) =~= sv);
        lemma_parse_u64_at(b, pos + sk.len(), e.1);
        let p2 = pos + sk.len() + 8;
        lemma_chunk(b, pos, w, sk.len() as int + 8, spec_ser_bentries(rest).len() as int);
        assert(w.subrange(sk.len() as int + 8, w.len() as int) =~= spec_ser_bentries(rest));
        assert forall|i: int| 0 <= i < rest.len() implies string_fits((#[trigger] rest[i]).0) by {
            assert(rest[i] == s[i + 1]);
        }
        lemma_parse_bentries_at(b, p2, rest);
        assert(seq![e] + rest =~= s);
    }
}

proof fn lemma_parse_lentries_at(b: Seq<u8>, pos: int, s: Seq<(Seq<char>, ChangeView)>)
    requires
        0 <= pos,
        forall|i: int|
            0 <= i < s.len() ==> string_fits((#[trigger] s[i]).0) && change_fits(s[i].1),
        pos + spec_ser_lentries(s).len() <= b.len(),
        b.subrange(pos, pos + spec_ser_lentries(s).len() as int) == spec_ser_lentries(s),
    ensures
        spec_parse_lentries(b, pos, s.len() as nat) == Some((s, pos + spec_ser_lentries(s).len())),
    decreases s.len(),
{
    if s.len() == 0 {
        assert(s =~= Seq::<(Seq<char>, ChangeView)>::empty());
    } else {
        let e = s[0];
        let sk = spec_ser_chars(e.0);
        let sc = spec_ser_change(e.1);
        let rest = s.drop_first();
        let w = spec_ser_lentries(s);
        assert(w.len() == sk.len() + sc.len() + spec_ser_lentries(rest).len());
        lemma_chunk(b, pos, w, 0, sk.len() as int);
        assert(w.subrange(0, sk.len() as int) =~= sk);
        lemma_parse_chars_at(b, pos, e.0);
        lemma_chunk(b, pos, w, sk.len() as int, sc.len() as int);
        assert(w.subrange(sk.len() as int, sk.len() as int + sc.len() as int) =~= sc);
        lemma_parse_change_at(b, pos + sk.len(), e.1);
        let p2 = pos + sk.len() + sc.len();
        lemma_chunk(b, pos, w, sk.len() as int + sc.len() as int, spec_ser_lentries(rest).len() as int);
        assert(w.subrange(sk.len() as int + sc.len() as int, w.len() as int) =~= spec_ser_lentries(rest));
        assert forall|i: int|
            0 <= i < rest.len() implies string_fits((#[trigger] rest[i]).0) && change_fits(
            rest[i].1,
        ) by {
            assert(rest[i] == s[i + 1]);
        }
        lemma_parse_lentries_at(b, p2, rest);
        assert(seq![e] + rest =~= s);
    }
}

/// Round trip at the heart of the codec: parsing the laid-out bytes of
/// any reproducible session data yields exactly that data.
pub proof fn lemma_parse_ser_session(d: SessionData)
    requires
        good_data(d),
    ensures
        spec_parse_session(spec_ser_session(d)) == Some(d),
{
    let b = spec_ser_session(d);
    let si = spec_ser_chars(d.id);
    let sc = spec_ser_u64(d.created_at);
    let sbn = spec_ser_u64(d.baseline.len() as u64);
    let sb = spec_ser_bentries(d.baseline);
    let sln = spec_ser_u64(d.ledger.len() as u64);
    let sl = spec_ser_lentries(d.ledger);
    lemma_auto_spec_u64_to_from_le_bytes();
    assert(b.len() == si.len() + 8 + 8 + sb.len() + 8 + sl.len());
    let p1 = si.len() as int;
    let p2 = p1 + 8;
    let p3 = p2 + 8;
    let p4 = p3 + sb.len() as int;
    let p5 = p4 + 8;
    let p6 = p5 + sl.len() as int;
    assert(b.subrange(0, b.len() as int) =~= b);
    lemma_chunk(b, 0, b, 0, p1);
    assert(b.subrange(0, p1) =~= si);
    lemma_parse_chars_at(b, 0, d.id);
    lemma_chunk(b, 0, b, p1, 8);
    assert(b.subrange(p1, p2) =~= sc);
    lemma_parse_u64_at(b, p1, d.created_at);
    lemma_chunk(b, 0, b, p2, 8);
    assert(b.subrange(p2, p3) =~= sbn);
    lemma_parse_u64_at(b, p2, d.baseline.len() as u64);
    assert((d.baseline.len() as u64) as nat == d.baseline.len());
    lemma_chunk(b, 0, b, p3, sb.len() as int);
    assert(b.subrange(p3, p4) =~= sb);
    lemma_parse_bentries_at(b, p3, d.baseline);
    lemma_chunk(b, 0, b, p4, 8);
    assert(b.subrange(p4, p5) =~= sln);
    lemma_parse_u64_at(b, p4, d.ledger.len() as u64);
    assert((d.ledger.len() as u64) as nat == d.ledger.len());
    lemma_chunk(b, 0, b, p5, sl.len() as int);
    assert(b.subrange(p5, p6) =~= sl);
    lemma_parse_lentries_at(b, p5, d.ledger);
    assert(p6 == b.len());
}

proof fn lemma_subrange_split(b: Seq<u8>, lo: int, mid: int, hi: int)
    requires
        0 <= lo <= mid <= hi <= b.len(),
    ensures
        b.subrange(lo, hi) == b.subrange(lo, mid) + b.subrange(mid, hi),
{
    assert forall|i: int|
        #![trigger b.subrange(lo, hi)[i]]
        0 <= i < hi - lo implies b.subrange(lo, hi)[i] == (b.subrange(lo, mid) + b.subrange(
        mid,
        hi,
    ))[i] by {
        assert(b.subrange(lo, hi)[i] == b[lo + i]);
        if i < mid - lo {
            assert(b.subrange(lo, mid)[i] == b[lo + i]);
        } else {
            assert(b.subrange(mid, hi)[i - (mid - lo)] == b[mid + (i - (mid - lo))]);
        }
    }
    assert(b.subrange(lo, hi) =~= b.subrange(lo, mid) + b.subrange(mid, hi));
}

proof fn lemma_unparse_u64(b: Seq<u8>, pos: int)
    requires
        spec_parse_u64(b, pos) is Some,
    ensures
        ({
            let (x, p) = spec_parse_u64(b, pos)->Some_0;
            &&& p == pos + 8
            &&& pos + 8 <= b.len()
            &&& b.subrange(pos, p) == spec_ser_u64(x)
        }),
{
    lemma_auto_spec_u64_to_from_le_bytes();
}

proof fn lemma_unparse_chars(b: Seq<u8>, pos: int)
    requires
        spec_parse_chars(b, pos) is Some,
    ensures
        ({
            let (x, p) = spec_parse_chars(b, pos)->Some_0;
            &&& pos + 8 <= p <= b.len()
            &&& string_fits(x)
            &&& b.subrange(pos, p) == spec_ser_chars(x)
        }),
{
    let (n, p1) = spec_parse_u64(b, pos)->Some_0;
    lemma_unparse_u64(b, pos);
    let (x, p) = spec_parse_chars(b, pos)->Some_0;
    let sub2 = b.subrange(p1, p1 + n as int);
    vstd::utf8::decode_utf8_encode_utf8(sub2);
    assert(encode_utf8(x) == sub2);
    assert(encode_utf8(x).len() == n as int);
    assert((encode_utf8(x).len() as u64) == n);
    lemma_subrange_split(b, pos, p1, p);
    assert(b.subrange(pos, p) =~= spec_ser_chars(x));
}

proof fn lemma_unparse_change(b: Seq<u8>, pos: int)
    requires
        spec_parse_change(b, pos) is Some,
    ensures
        ({
            let (c, p) = spec_parse_change(b, pos)->Some_0;
            &&& pos + 1 <= p <= b.len()
            &&& change_fits(c)
            &&& b.subrange(pos, p) == spec_ser_change(c)
        }),
{
    let (c, p) = spec_parse_change(b, pos)->Some_0;
    let tag = b[pos];
    assert(b.subrange(pos, pos + 1) =~= seq![tag]);
    if tag == 0 {
        let (v, p2) = spec_parse_chars(b, pos + 1)->Some_0;
        lemma_unparse_chars(b, pos + 1);
        lemma_subrange_split(b, pos, pos + 1, p);
        assert(b.subrange(pos, p) =~= spec_ser_change(c));
    } else if tag == 1 {
        let (v, p2) = spec_parse_chars(b, pos + 1)->Some_0;
        lemma_unparse_chars(b, pos + 1);
        let (pr, p3) = spec_parse_chars(b, p2)->Some_0;
        lemma_unparse_chars(b, p2);
        lemma_subrange_split(b, pos + 1, p2, p);
        lemma_subrange_split(b, pos, pos + 1, p);
        assert(b.subrange(pos, p) =~= spec_ser_change(c));
    } else {
        let (pr, p2) = spec_parse_chars(b, pos + 1)->Some_0;
        lemma_unparse_chars(b, pos + 1);
        lemma_subrange_split(b, pos, pos + 1, p);
        assert(b.subrange(pos, p) =~= spec_ser_change(c));
    }
}

proof fn lemma_unparse_bentries(b: Seq<u8>, pos: int, n: nat)
    requires
        0 <= pos <= b.len(),
        spec_parse_bentries(b, pos, n) is Some,
    ensures
        ({
            let (es, p) = spec_parse_bentries(b, pos, n)->Some_0;
            &&& es.len() == n
            &&& pos <= p <= b.len()
            &&& b.subrange(pos, p) == spec_ser_bentries(es)
        }),
    decreases n,
{
    let (es, p) = spec_parse_bentries(b, pos, n)->Some_0;
    if n == 0 {
        assert(b.subrange(pos, pos) =~= Seq::<u8>::empty());
        assert(es =~= Seq::<(Seq<char>, u64)>::empty());
        assert(spec_ser_bentries(es) =~= Seq::<u8>::empty());
    } else {
        let (k, p1) = spec_parse_chars(b, pos)->Some_0;
        lemma_unparse_chars(b, pos);
        let (v, p2) = spec_parse_u64(b, p1)->Some_0;
        lemma_unparse_u64(b, p1);
        let (rest, p3) = spec_parse_bentries(b, p2, (n - 1) as nat)->Some_0;
        lemma_unparse_bentries(b, p2, (n - 1) as nat);
        assert(es == seq![(k, v)] + rest);
        assert(es[0] == (k, v));
        assert(es.drop_first() =~= rest);
        lemma_subrange_split(b, p1, p2, p);
        lemma_subrange_split(b, pos, p1, p);
        assert(b.subrange(pos, p) =~= spec_ser_bentries(es));
    }
}

proof fn lemma_unparse_lentries(b: Seq<u8>, pos: int, n: nat)
    requires
        0 <= pos <= b.len(),
        spec_parse_lentries(b, pos, n) is Some,
    ensures
        ({
            let (es, p) = spec_parse_lentries(b, pos, n)->Some_0;
            &&& es.len() == n
            &&& pos <= p <= b.len()
            &&& b.subrange(pos, p) == spec_ser_lentries(es)
        }),
    decreases n,
{
    let (es, p) = spec_parse_lentries(b, pos, n)->Some_0;
    if n == 0 {
        assert(b.subrange(pos, pos) =~= Seq::<u8>::empty());
        assert(es =~= Seq::<(Seq<char>, ChangeView)>::empty());
        assert(spec_ser_lentries(es) =~= Seq::<u8>::empty());
    } else {
        let (k, p1) = spec_parse_chars(b, pos)->Some_0;
        lemma_unparse_chars(b, pos);
        let (c, p2) = spec_parse_change(b, p1)->Some_0;
        lemma_unparse_change(b, p1);
        let (rest, p3) = spec_parse_lentries(b, p2, (n - 1) as nat)->Some_0;
        lemma_unparse_lentries(b, p2, (n - 1) as nat);
        assert(es == seq![(k, c)] + rest);
        assert(es[0] == (k, c));
        assert(es.drop_first() =~= rest);
        lemma_subrange_split(b, p1, p2, p);
        lemma_subrange_split(b, pos, p1, p);
        assert(b.subrange(pos, p) =~= spec_ser_lentries(es));
    }
}

/// The other face of the round trip: parsing is injective on its whole
/// input, so bytes that parse at all are exactly the layout of what they
/// parsed to.
pub proof fn lemma_ser_of_parse_session(b: Seq<u8>)
    requires
        spec_parse_session(b) is Some,
    ensures
        b == spec_ser_session(spec_parse_session(b)->Some_0),
{
    let d = spec_parse_session(b)->Some_0;
    let (id, p1) = spec_parse_chars(b, 0)->Some_0;
    lemma_unparse_chars(b, 0);
    let (ca, p2) = spec_parse_u64(b, p1)->Some_0;
    lemma_unparse_u64(b, p1);
    let (bn, p3) = spec_parse_u64(b, p2)->Some_0;
    lemma_unparse_u64(b, p2);
    let (bk, p4) = spec_parse_bentries(b, p3, bn as nat)->Some_0;
    lemma_unparse_bentries(b, p3, bn as nat);
    let (ln, p5) = spec_parse_u64(b, p4)->Some_0;
    lemma_unparse_u64(b, p4);
    let (lk, p6) = spec_parse_lentries(b, p5, ln as nat)->Some_0;
    lemma_unparse_lentries(b, p5, ln as nat);
    assert(p6 == b.len());
    assert(d.baseline == bk && d.ledger == lk && d.id == id && d.created_at == ca);
    assert((d.baseline.len() as u64) == bn);
    assert((d.ledger.len() as u64) == ln);
    lemma_subrange_split(b, p4, p5, p6);
    lemma_subrange_split(b, p3, p4, p6);
    lemma_subrange_split(b, p2, p3, p6);
    lemma_subrange_split(b, p1, p2, p6);
    lemma_subrange_split(b, 0, p1, p6);
    assert(b.subrange(0, p6) =~= b);
    assert(b =~= spec_ser_session(d));
}

/// The name/value views of a parsed baseline entry vector.
pub open spec fn bview(s: Seq<(String, u64)>) -> Seq<(Seq<char>, u64)> {
    s.map_values(|e: (String, u64)| (e.0@, e.1@))
}

/// The name/value views of a parsed ledger entry vector.
pub open spec fn lview(s: Seq<(String, TrackedChange)>) -> Seq<(Seq<char>, ChangeView)> {
    s.map_values(|e: (String, TrackedChange)| (e.0@, e.1@))
}

fn parse_u64(bytes: &Vec<u8>, pos: usize) -> (r: Option<(u64, usize)>)
    ensures
        match r {
            Some((x, p)) => spec_parse_u64(bytes@, pos as int) == Some((x, p as int)) && p
                <= bytes@.len(),
            None => spec_parse_u64(bytes@, pos as int) is None,
        },
{
    let n = bytes.len();
    if pos > n || n - pos < 8 {
        return None;
    }
    let sub = slice_subrange(bytes.as_slice(), pos, pos + 8);
    let x = u64_from_le_bytes(sub);
    Some((x, pos + 8))
}

fn parse_chars(bytes: &Vec<u8>, pos: usize) -> (r: Option<(String, usize)>)
    ensures
        match r {
            Some((s, p)) => spec_parse_chars(bytes@, pos as int) == Some((s@, p as int)) && p
                <= bytes@.len() && string_fits(s@),
            None => spec_parse_chars(bytes@, pos as int) is None,
        },
{
    match parse_u64(bytes, pos) {
        None => None,
        Some((n, p)) => {
            let blen = bytes.len();
            if n > (blen - p) as u64 {
                return None;
            }
            let l = n as usize;
            let sub = slice_subrange(bytes.as_slice(), p, p + l);
            match utf8_to_str(sub) {
                Some(s) => {
                    proof {
                        vstd::utf8::decode_utf8_encode_utf8(bytes@.subrange(
                            p as int,
                            p + l as int,
                        ));
                    }
                    Some((s.to_owned(), p + l))
                },
                None => None,
            }
        },
    }
}

fn parse_change(bytes: &Vec<u8>, pos: usize) -> (r: Option<(TrackedChange, usize)>)
    ensures
        match r {
            Some((c, p)) => spec_parse_change(bytes@, pos as int) == Some((c@, p as int)) && p
                <= bytes@.len() && change_fits(c@),
            None => spec_parse_change(bytes@, pos as int) is None,
        },
{
    let n = bytes.len();
    if pos >= n {
        return None;
    }
    let tag = bytes[pos];
    if tag == 0 {
        match parse_chars(bytes, pos + 1) {
            Some((v, p)) => Some((TrackedChange::Assign { value: v, previous: None }, p)),
            None => None,
        }
    } else if tag == 1 {
        match parse_chars(bytes, pos + 1) {
            Some((v, p1)) => match parse_chars(bytes, p1) {
                Some((pr, p2)) => Some(
                    (TrackedChange::Assign { value: v, previous: Some(pr) }, p2),
                ),
                None => None,
            },
            None => None,
        }
    } else if tag == 2 {
        match parse_chars(bytes, pos + 1) {
            Some((pr, p)) => Some((TrackedChange::Unset { previous: pr }, p)),
            None => None,
        }
    } else {
        None
    }
}

fn parse_bentries(bytes: &Vec<u8>, pos: usize, n: u64) -> (r: Option<(Vec<(String, u64)>, usize)>)
    requires
        pos <= bytes@.len(),
    ensures
        match r {
            Some((v, p)) => spec_parse_bentries(bytes@, pos as int, n as nat) == Some(
                (bview(v@), p as int),
            ) && p <= bytes@.len() && (forall|i: int|
                0 <= i < v@.len() ==> string_fits((#[trigger] v@[i]).0@)),
            None => spec_parse_bentries(bytes@, pos as int, n as nat) is None,
        },
{
    let mut acc: Vec<(String, u64)> = Vec::new();
    let mut p = pos;
    let mut c: u64 = 0;
    proof {
        assert(bview(acc@) =~= Seq::<(Seq<char>, u64)>::empty());
    }
    while c < n
        invariant
            p <= bytes@.len(),
            c <= n,
            forall|i: int| 0 <= i < acc@.len() ==> string_fits((#[trigger] acc@[i]).0@),
            (match spec_parse_bentries(bytes@, p as int, (n - c) as nat) {
                Some((rest, e)) => spec_parse_bentries(bytes@, pos as int, n as nat) == Some(
                    (bview(acc@) + rest, e),
                ),
                None => spec_parse_bentries(bytes@, pos as int, n as nat) is None,
            }),
        decreases n - c,
    {
        match parse_chars(bytes, p) {
            None => {
                return None;
            },
            Some((k, p1)) => {
                match parse_u64(bytes, p1) {
                    None => {
                        return None;
                    },
                    Some((x, p2)) => {
                        let ghost pre = acc@;
                        acc.push((k, x));
                        proof {
                            let m = (n - c) as nat;
                            let tail = spec_parse_bentries(bytes@, p2 as int, (m - 1) as nat);
                            assert(bview(acc@) =~= bview(pre) + seq![(k@, x)]);
                            match tail {
                                Some((rest, e)) => {
                                    assert(spec_parse_bentries(bytes@, p as int, m) == Some(
                                        (seq![(k@, x)] + rest, e),
                                    ));
                                    assert(bview(pre) + (seq![(k@, x)] + rest) =~= bview(acc@)
                                        + rest);
                                },
                                None => {
                                    assert(spec_parse_bentries(bytes@, p as int, m) is None);
                                },
                            }
                        }
                        p = p2;
                        c = c + 1;
                    },
                }
            },
        }
    }
    proof {
        assert(bview(acc@) + Seq::<(Seq<char>, u64)>::empty() =~= bview(acc@));
    }
    Some((acc, p))
}

fn parse_lentries(bytes: &Vec<u8>, pos: usize, n: u64) -> (r: Option<
    (Vec<(String, TrackedChange)>, usize),
>)
    requires
        pos <= bytes@.len(),
    ensures
        match r {
            Some((v, p)) => spec_parse_lentries(bytes@, pos as int, n as nat) == Some(
                (lview(v@), p as int),
            ) && p <= bytes@.len() && (forall|i: int|
                0 <= i < v@.len() ==> string_fits((#[trigger] v@[i]).0@) && change_fits(
                    v@[i].1@,
                )),
            None => spec_parse_lentries(bytes@, pos as int, n as nat) is None,
        },
{
    let mut acc: Vec<(String, TrackedChange)> = Vec::new();
    let mut p = pos;
    let mut c: u64 = 0;
    proof {
        assert(lview(acc@) =~= Seq::<(Seq<char>, ChangeView)>::empty());
    }
    while c < n
        invariant
            p <= bytes@.len(),
            c <= n,
            forall|i: int|
                0 <= i < acc@.len() ==> string_fits((#[trigger] acc@[i]).0@) && change_fits(
                    acc@[i].1@,
                ),
            (match spec_parse_lentries(bytes@, p as int, (n - c) as nat) {
                Some((rest, e)) => spec_parse_lentries(bytes@, pos as int, n as nat) == Some(
                    (lview(acc@) + rest, e),
                ),
                None => spec_parse_lentries(bytes@, pos as int, n as nat) is None,
            }),
        decreases n - c,
    {
        match parse_chars(bytes, p) {
            None => {
                return None;
            },
            Some((k, p1)) => {
                match parse_change(bytes, p1) {
                    None => {
                        return None;
                    },
                    Some((ch, p2)) => {
                        let ghost pre = acc@;
                        let ghost chv = ch@;
                        acc.push((k, ch));
                        proof {
                            let m = (n - c) as nat;
                            let tail = spec_parse_lentries(bytes@, p2 as int, (m - 1) as nat);
                            assert(lview(acc@) =~= lview(pre) + seq![(k@, chv)]);
                            match tail {
                                Some((rest, e)) => {
                                    assert(spec_parse_lentries(bytes@, p as int, m) == Some(
                                        (seq![(k@, chv)] + rest, e),
                                    ));
                                    assert(lview(pre) + (seq![(k@, chv)] + rest) =~= lview(acc@)
                                        + rest);
                                },
                                None => {
                                    assert(spec_parse_lentries(bytes@, p as int, m) is None);
                                },
                            }
                        }
                        p = p2;
                        c = c + 1;
                    },
                }
            },
        }
    }
    proof {
        assert(lview(acc@) + Seq::<(Seq<char>, ChangeView)>::empty() =~= lview(acc@));
    }
    Some((acc, p))
}

fn parse_session(bytes: &Vec<u8>) -> (r: Option<Session>)
    ensures
        match r {
            Some(sess) => sess.wf() && good_data(sess.data()) && spec_parse_session(bytes@)
                == Some(sess.data()),
            None => (spec_parse_session(bytes@) matches Some(d) ==> !good_data(d)),
        },
{
    let (id, p1) = match parse_chars(bytes, 0) {
        Some(x) => x,
        None => {
            return None;
        },
    };
    let (ca, p2) = match parse_u64(bytes, p1) {
        Some(x) => x,
        None => {
            return None;
        },
    };
    let (bn, p3) = match parse_u64(bytes, p2) {
        Some(x) => x,
        None => {
            return None;
        },
    };
    let (bvec, p4) = match parse_bentries(bytes, p3, bn) {
        Some(x) => x,
        None => {
            return None;
        },
    };
    let (ln, p5) = match parse_u64(bytes, p4) {
        Some(x) => x,
        None => {
            return None;
        },
    };
    let (lvec, p6) = match parse_lentries(bytes, p5, ln) {
        Some(x) => x,
        None => {
            return None;
        },
    };
    if p6 != bytes.len() {
        return None;
    }
    let ghost d = SessionData { id: id@, created_at: ca, baseline: bview(bvec@), ledger: lview(lvec@) };
    proof {
        assert(spec_parse_session(bytes@) == Some(d));
    }
    if !crate::vars::check_sorted(&bvec) {
        proof {
            if good_data(d) {
                assert forall|i: int, j: int|
                    #![trigger bvec@[i], bvec@[j]]
                    0 <= i < j < bvec@.len() implies lex_lt(bvec@[i].0@, bvec@[j].0@) by {
                    assert(d.baseline[i] == (bvec@[i].0@, bvec@[i].1@));
                    assert(d.baseline[j] == (bvec@[j].0@, bvec@[j].1@));
                    assert(lex_lt(d.baseline[i].0, d.baseline[j].0));
                }
                assert(crate::vars::sorted_entries(bvec@));
            }
        }
        return None;
    }
    if !crate::vars::check_sorted(&lvec) {
        proof {
            if good_data(d) {
                assert forall|i: int, j: int|
                    #![trigger lvec@[i], lvec@[j]]
                    0 <= i < j < lvec@.len() implies lex_lt(lvec@[i].0@, lvec@[j].0@) by {
                    assert(d.ledger[i] == (lvec@[i].0@, lvec@[i].1@));
                    assert(d.ledger[j] == (lvec@[j].0@, lvec@[j].1@));
                    assert(lex_lt(d.ledger[i].0, d.ledger[j].0));
                }
                assert(crate::vars::sorted_entries(lvec@));
            }
        }
        return None;
    }
    let bl = bvec.len();
    let ll = lvec.len();
    let bm: VarMap<u64> = VarMap::from_sorted(bvec);
    let lm: VarMap<TrackedChange> = VarMap::from_sorted(lvec);
    if bm.contains_key(SESSION_VAR) {
        proof {
            crate::vars::lemma_entries_map_contains(bm.entries@, SESSION_VAR@);
            let i = choose|i: int|
                0 <= i < bm.entries@.len() && (#[trigger] bm.entries@[i]).0@ == SESSION_VAR@;
            assert(d.baseline[i] == (bm.entries@[i].0@, bm.entries@[i].1@));
            assert(d.baseline[i].0 == SESSION_VAR@);
        }
        return None;
    }
    let sess = Session { id, created_at: ca, baseline: bm, ledger: lm };
    proof {
        assert(sess.data().baseline =~= d.baseline);
        assert(sess.data().ledger =~= d.ledger);
        assert(sess.data() == d);
        // well-formed: both maps sorted and the reserved name absent
        assert forall|i: int, j: int|
            #![trigger sess.baseline.entries@[i], sess.baseline.entries@[j]]
            0 <= i < j < sess.baseline.entries@.len() implies lex_lt(
            sess.baseline.entries@[i].0@,
            sess.baseline.entries@[j].0@,
        ) by {}
        // reproducible: sorted, small, and reserved-free
        assert forall|i: int, j: int|
            #![trigger d.baseline[i], d.baseline[j]]
            0 <= i < j < d.baseline.len() implies lex_lt(d.baseline[i].0, d.baseline[j].0) by {
            assert(d.baseline[i] == (sess.baseline.entries@[i].0@, sess.baseline.entries@[i].1@));
            assert(d.baseline[j] == (sess.baseline.entries@[j].0@, sess.baseline.entries@[j].1@));
        }
        assert forall|i: int, j: int|
            #![trigger d.ledger[i], d.ledger[j]]
            0 <= i < j < d.ledger.len() implies lex_lt(d.ledger[i].0, d.ledger[j].0) by {
            assert(d.ledger[i] == (sess.ledger.entries@[i].0@, sess.ledger.entries@[i].1@));
            assert(d.ledger[j] == (sess.ledger.entries@[j].0@, sess.ledger.entries@[j].1@));
        }
        assert forall|i: int| 0 <= i < d.baseline.len() implies (#[trigger] d.baseline[i]).0
            != SESSION_VAR@ by {
            crate::vars::lemma_entries_map_contains(sess.baseline.entries@, SESSION_VAR@);
            assert(d.baseline[i] == (sess.baseline.entries@[i].0@, sess.baseline.entries@[i].1@));
        }
        assert(d.baseline.len() == bl as int);
        assert(bl as u64 as int == bl as int);
        assert(d.ledger.len() == ll as int);
        assert(ll as u64 as int == ll as int);
        assert forall|i: int| 0 <= i < d.baseline.len() implies string_fits(
            (#[trigger] d.baseline[i]).0,
        ) by {
            assert(d.baseline[i] == (sess.baseline.entries@[i].0@, sess.baseline.entries@[i].1@));
        }
        assert forall|i: int| 0 <= i < d.ledger.len() implies string_fits(
            (#[trigger] d.ledger[i]).0,
        ) && change_fits(d.ledger[i].1) by {
            assert(d.ledger[i] == (sess.ledger.entries@[i].0@, sess.ledger.entries@[i].1@));
        }
        assert(good_data(d));
    }
    Some(sess)
}

impl Session {
    /// Decode a session from the base64 text stored in the reserved
    /// environment variable.  Either the text is the encoding of some
    /// reproducible session, which is returned exactly, or the decode
    /// fails as corrupted; there is no partial success.
    pub fn decode(encoded: &str) -> (r: Result<Session, String>)
        ensures
            r matches Ok(sess) ==> sess.wf() && good_data(sess.data()) && encoded@
                == b64_encoding(spec_ser_session(sess.data())),
            forall|d: SessionData|
                #![trigger spec_ser_session(d)]
                good_data(d) && encoded@ == b64_encoding(spec_ser_session(d)) ==> (
                r matches Ok(sess) && sess.data() == d),
    {
        let bytes = match b64_decode(encoded) {
            Some(v) => v,
            None => {
                return Err(String::from_str("Session data corrupted (bad base64)"));
            },
        };
        match parse_session(&bytes) {
            Some(sess) => {
                proof {
                    lemma_ser_of_parse_session(bytes@);
                    assert(bytes@ == spec_ser_session(sess.data()));
                    assert forall|d: SessionData|
                        good_data(d) && encoded@ == b64_encoding(
                            #[trigger] spec_ser_session(d),
                        ) implies sess.data() == d by {
                        assert(bytes@ == spec_ser_session(d));
                        lemma_parse_ser_session(d);
                    }
                }
                Ok(sess)
            },
            None => {
                proof {
                    assert forall|d: SessionData|
                        good_data(d) && encoded@ == b64_encoding(
                            #[trigger] spec_ser_session(d),
                        ) implies false by {
                        assert(bytes@ == spec_ser_session(d));
                        lemma_parse_ser_session(d);
                    }
                }
                Err(String::from_str("Session data corrupted (bad format)"))
            },
        }
    }

    /// Load the session from the reserved variable of the given
    /// environment: absent or empty means no active session, which is not
    /// an error.  A present, non-empty value is never silently dropped:
    /// either it decodes to exactly the session it encodes, or the decode
    /// error surfaces.
    pub fn load(env: &crate::session::EnvMap) -> (r: Result<Option<Session>, String>)
        requires
            env.wf(),
        ensures
            (r matches Ok(o) && o is None) <==> (!env@.contains_key(SESSION_VAR@)
                || env@[SESSION_VAR@].len() == 0),
            r matches Ok(Some(sess)) ==> sess.wf() && good_data(sess.data())
                && env@.contains_key(SESSION_VAR@) && env@[SESSION_VAR@] == b64_encoding(
                spec_ser_session(sess.data()),
            ),
            forall|d: SessionData|
                #![trigger spec_ser_session(d)]
                good_data(d) && env@.contains_key(SESSION_VAR@) && env@[SESSION_VAR@]
                    == b64_encoding(spec_ser_session(d)) && env@[SESSION_VAR@].len() > 0 ==> (
                r matches Ok(o) && o matches Some(sess) && sess.data() == d),
    {
        match env.get(SESSION_VAR) {
            None => Ok(None),
            Some(v) => {
                if v.as_str().is_empty() {
                    Ok(None)
                } else {
                    match Self::decode(v.as_str()) {
                        Ok(sess) => Ok(Some(sess)),
                        Err(e) => Err(e),
                    }
                }
            },
        }
    }

    /// The statement of the export protocol: the exact shell line that
    /// persists this session into the parent shell's environment.  The
    /// payload is base64 text, so the single-quoted word cannot be broken
    /// by its contents and the statement stays one well-formed line.
    pub fn export_statement(&self) -> (r: Result<String, String>)
        requires
            self.wf(),
        ensures
            r matches Ok(s) && s@ == "export ENVISION_SESSION='"@ + b64_encoding(
                spec_ser_session(self.data()),
            ) + "'"@,
            text_safe(b64_encoding(spec_ser_session(self.data()))),
    {
        let encoded = match self.encode() {
            Ok(e) => e,
            Err(e) => {
                return Err(e);
            },
        };
        let mut s = String::from_str("export ENVISION_SESSION='");
        s.append(encoded.as_str());
        s.append("'");
        Ok(s)
    }
}

impl Session {
    /// Encode the session as base64 text: deterministic for the session's
    /// data, and made of base64 characters alone, so it is safe to embed
    /// as a single environment-variable value — no newline, no quote of
    /// either kind, no null byte (see `lemma_text_safe_embedding`).
    pub fn encode(&self) -> (r: Result<String, String>)
        requires
            self.wf(),
        ensures
            r matches Ok(s) && s@ == b64_encoding(spec_ser_session(self.data())),
            text_safe(b64_encoding(spec_ser_session(self.data()))),
            good_data(self.data()),
    {
        let mut out: Vec<u8> = Vec::new();
        ser_str(&mut out, self.id.as_str());
        ser_u64(&mut out, self.created_at);
        let bn = self.baseline.len();
        ser_u64(&mut out, bn as u64);
        ser_baseline(&mut out, &self.baseline);
        let ln = self.ledger.len();
        ser_u64(&mut out, ln as u64);
        ser_ledger(&mut out, &self.ledger);
        proof {
            assert(out@ =~= spec_ser_session(self.data()));
            // The maps are sorted and the reserved variable is outside the
            // baseline, so the data can be reproduced by decoding.
            assert forall|i: int, j: int|
                #![trigger self.data().baseline[i], self.data().baseline[j]]
                0 <= i < j < self.data().baseline.len() implies lex_lt(
                self.data().baseline[i].0,
                self.data().baseline[j].0,
            ) by {
                assert(self.data().baseline[i].0 == self.baseline.entries@[i].0@);
                assert(self.data().baseline[j].0 == self.baseline.entries@[j].0@);
            }
            assert forall|i: int, j: int|
                #![trigger self.data().ledger[i], self.data().ledger[j]]
                0 <= i < j < self.data().ledger.len() implies lex_lt(
                self.data().ledger[i].0,
                self.data().ledger[j].0,
            ) by {
                assert(self.data().ledger[i].0 == self.ledger.entries@[i].0@);
                assert(self.data().ledger[j].0 == self.ledger.entries@[j].0@);
            }
            assert forall|i: int| 0 <= i < self.data().baseline.len() implies (#[trigger] self.data().baseline[i]).0 != SESSION_VAR@ by {
                crate::vars::lemma_entries_map_contains(self.baseline.entries@, SESSION_VAR@);
                assert(self.data().baseline[i].0 == self.baseline.entries@[i].0@);
            }
        }
        Ok(b64_encode(&out))
    }
}

} // verus!
