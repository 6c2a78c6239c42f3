//! Deterministic, non-cryptographic fingerprints of variable values, and
//! the derived short session identifier.
//!
//! A fingerprint stores "did this value change" without storing the value:
//! it is stable across processes and platforms, and is never used to recover
//! a value, only to compare for equality.

use vstd::prelude::*;
use vstd::string::StrSliceExecFns;
use vstd::utf8::encode_utf8;
use crate::text::push_char;

verus! {

pub const FNV_OFFSET_BASIS: u64 = 0xcbf29ce484222325;

pub const FNV_PRIME: u64 = 0x100000001b3;

/// FNV-1a over a byte sequence, folding from the left.
pub open spec fn fnv1a_bytes(bytes: Seq<u8>) -> u64
    decreases bytes.len(),
{
    if bytes.len() == 0 {
        FNV_OFFSET_BASIS
    } else {
        (fnv1a_bytes(bytes.drop_last()) ^ (bytes.last() as u64)).wrapping_mul(FNV_PRIME)
    }
}

/// The fingerprint of a string value: FNV-1a over its UTF-8 bytes.
pub open spec fn fingerprint(s: Seq<char>) -> u64 {
    fnv1a_bytes(encode_utf8(s))
}

/// Fingerprint a value.  Same input always gives the same output.
pub fn hash_value(s: &str) -> (h: u64)
    ensures
        h == fingerprint(s@),
{
    let bytes = s.as_bytes();
    let n = bytes.len();
    let mut h: u64 = FNV_OFFSET_BASIS;
    let mut i: usize = 0;
    while i < n
        invariant
            n == bytes@.len(),
            i <= n,
            bytes@ == encode_utf8(s@),
            h == fnv1a_bytes(bytes@.take(i as int)),
        decreases n - i,
    {
        h = (h ^ (bytes[i] as u64)).wrapping_mul(FNV_PRIME);
        proof {
            assert(bytes@.take(i as int + 1).drop_last() =~= bytes@.take(i as int));
            assert(bytes@.take(i as int + 1).last() == bytes@[i as int]);
        }
        i += 1;
    }
    proof {
        assert(bytes@.take(n as int) =~= bytes@);
    }
    h
}

/// Two equal values always carry equal fingerprints: the fingerprint is a
/// function of the characters alone, with no dependence on process state.
pub proof fn lemma_fingerprint_deterministic(x: Seq<char>, y: Seq<char>)
    requires
        x == y,
    ensures
        fingerprint(x) == fingerprint(y),
{
}

/// The 64-bit mix behind a session identifier, folding the process id and
/// the creation time into 32 bits.
pub open spec fn session_id_hash(pid: u32, timestamp: u64) -> u32 {
    let h0 = 0x517cc1b727220a95u64;
    let h1 = (h0 ^ (pid as u64)).wrapping_mul(0x9e3779b97f4a7c15);
    let h2 = (h1 ^ timestamp).wrapping_mul(0x9e3779b97f4a7c15);
    let h3 = h2 ^ (h2 >> 27);
    (h3 >> 32) as u32
}

/// The lower-case hex digit for a nibble.
pub open spec fn hex_digit(d: u8) -> char
    recommends
        d < 16,
{
    if d < 10 {
        ((d + 48) as u8) as char
    } else {
        ((d + 87) as u8) as char
    }
}

/// Eight lower-case hex digits of a 32-bit value, most significant first.
pub open spec fn hex8(x: u32) -> Seq<char> {
    Seq::new(8, |i: int| hex_digit(((x >> ((7 - i) * 4) as u32) % 16) as u8))
}

/// The display identifier of a session: eight hex digits derived
/// deterministically from process id and creation time.
pub open spec fn spec_session_id(pid: u32, timestamp: u64) -> Seq<char> {
    hex8(session_id_hash(pid, timestamp))
}

pub fn generate_session_id(pid: u32, timestamp: u64) -> (r: String)
    ensures
        r@ == spec_session_id(pid, timestamp),
{
    let h0: u64 = 0x517cc1b727220a95;
    let h1 = (h0 ^ (pid as u64)).wrapping_mul(0x9e3779b97f4a7c15);
    let h2 = (h1 ^ timestamp).wrapping_mul(0x9e3779b97f4a7c15);
    let h3 = h2 ^ (h2 >> 27);
    let x = #[verifier::truncate] ((h3 >> 32) as u32);
    let mut r = String::new();
    let mut i: usize = 0;
    while i < 8
        invariant
            i <= 8,
            x == session_id_hash(pid, timestamp),
            r@ =~= hex8(x).take(i as int),
        decreases 8 - i,
    {
        let shift: u32 = (7 - i as u32) * 4;
        let d = ((x >> shift) % 16) as u8;
        let c = if d < 10 {
            (d + 48) as char
        } else {
            (d + 87) as char
        };
        push_char(&mut r, c);
        proof {
            assert(hex8(x).take(i as int + 1).drop_last() =~= hex8(x).take(i as int));
            assert(c == hex8(x)[i as int]);
        }
        i += 1;
    }
    proof {
        assert(hex8(x).take(8) =~= hex8(x));
    }
    r
}

} // verus!
