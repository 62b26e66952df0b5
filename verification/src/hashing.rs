//! Hashes over line text and over runs of line signatures.
//!
//! All digests in this crate come from the standard library's `DefaultHasher`.
//! Its result is a pure function of the values written to it, which is all the
//! contracts here state: the digests themselves are left as named, opaque
//! values.

use vstd::prelude::*;
use std::hash::{Hash, Hasher};

verus! {

/// What `String::from_utf8_lossy` returns for a byte sequence.
pub uninterp spec fn lossy_decode(b: Seq<u8>) -> Seq<char>;

/// What `str::trim` returns for a character sequence.
pub uninterp spec fn trimmed(s: Seq<char>) -> Seq<char>;

/// The `DefaultHasher` digest of a string.
pub uninterp spec fn str_hash(s: Seq<char>) -> u64;

/// The `DefaultHasher` digest of a run of 64-bit values.
pub uninterp spec fn sequence_hash(s: Seq<u64>) -> u64;

/// Relies on `String::from_utf8_lossy`: the decoding is a function of the
/// bytes alone (invalid UTF-8 becomes replacement characters).
#[verifier::external_body]
pub fn lossy_utf8(b: &[u8]) -> (r: String)
    ensures
        r@ == lossy_decode(b@),
{
    String::from_utf8_lossy(b).into_owned()
}

/// Relies on `str::trim`: removes leading and trailing whitespace, a function
/// of the characters alone.
#[verifier::external_body]
pub fn trim_ws(s: &str) -> (r: String)
    ensures
        r@ == trimmed(s@),
{
    s.trim().to_owned()
}

/// Relies on `DefaultHasher::new`/`Hash::hash`/`Hasher::finish`: hashers made
/// by `new` are all the same, so the digest of a string depends on its
/// characters alone.
#[verifier::external_body]
pub fn hash_str(s: &str) -> (r: u64)
    ensures
        r == str_hash(s@),
{
    let mut h = std::collections::hash_map::DefaultHasher::new();
    s.hash(&mut h);
    h.finish()
}

/// Relies on `DefaultHasher::new`/`Hash::hash`/`Hasher::finish`: writing the
/// values of a slice in order gives a digest that depends on those values
/// alone.
#[verifier::external_body]
pub fn hash_u64s(v: &[u64]) -> (r: u64)
    ensures
        r == sequence_hash(v@),
{
    let mut h = std::collections::hash_map::DefaultHasher::new();
    for n in v {
        n.hash(&mut h);
    }
    h.finish()
}

/// The signature of one line of text: the digest of its trimmed, lossily
/// decoded content.
pub open spec fn spec_line_sig(l: Seq<u8>) -> u64 {
    str_hash(trimmed(lossy_decode(l)))
}

/// Hash one line: decode the bytes, trim whitespace at both ends, digest.
pub fn line_signature(l: &[u8]) -> (r: u64)
    ensures
        r == spec_line_sig(l@),
{
    let s = lossy_utf8(l);
    let t = trim_ws(s.as_str());
    hash_str(t.as_str())
}

} // verus!
