//! Message digests: SHA-256 of restored bytes, SHA-1 of backup names.

use crate::error::{Error, ErrorKind};
use crate::hex::{encode_hex, hex_string};
use crypto::digest::Digest;
use crypto::sha1::Sha1;
use crypto::sha2::Sha256;
use vstd::prelude::*;

verus! {

/// The SHA-256 digest of `data`, as rust-crypto computes it.
pub uninterp spec fn sha256_of(data: Seq<u8>) -> Seq<u8>;

/// The SHA-1 digest of `data`, as rust-crypto computes it.
pub uninterp spec fn sha1_of(data: Seq<u8>) -> Seq<u8>;

/// `Sha256` of rust-crypto: a fresh context is given all of `data` with
/// `input`, and `result` writes the digest.  The context counts bits and
/// panics where the count overflows, which the bound on the length rules
/// out.
#[verifier::external_body]
pub(crate) fn sha256_digest(data: &[u8]) -> (digest: Vec<u8>)
    requires
        data@.len() < 0x2000_0000_0000_0000,
    ensures
        digest@ == sha256_of(data@),
{
    let mut context = Sha256::new();
    context.input(data);
    let mut digest = vec![0u8; 32];
    context.result(&mut digest);
    digest
}

/// `Sha1` of rust-crypto: a fresh context is given all of `data` with
/// `input`, and `result` writes the digest.  The context counts bits and
/// panics where the count overflows, which the bound on the length rules
/// out.
#[verifier::external_body]
pub(crate) fn sha1_digest(data: &[u8]) -> (digest: Vec<u8>)
    requires
        data@.len() < 0x2000_0000_0000_0000,
    ensures
        digest@ == sha1_of(data@),
{
    let mut context = Sha1::new();
    context.input(data);
    let mut digest = vec![0u8; 20];
    context.result(&mut digest);
    digest
}

/// Whether `data` is short enough to be digested.
pub fn digestible(data: &[u8]) -> (fits: bool)
    ensures
        fits == (data@.len() < 0x2000_0000_0000_0000),
{
    (data.len() as u64) < 0x2000_0000_0000_0000u64
}

/// The SHA-256 digest of `data`, or `None` where `data` is too long to be
/// digested.
pub fn sha256(data: &[u8]) -> (digest: Option<Vec<u8>>)
    ensures
        match digest {
            Some(d) => data@.len() < 0x2000_0000_0000_0000 && d@ == sha256_of(data@),
            None => data@.len() >= 0x2000_0000_0000_0000,
        },
{
    if digestible(data) {
        Some(sha256_digest(data))
    } else {
        None
    }
}

/// The SHA-1 digest of `data`, or `None` where `data` is too long to be
/// digested.
pub fn sha1(data: &[u8]) -> (digest: Option<Vec<u8>>)
    ensures
        match digest {
            Some(d) => data@.len() < 0x2000_0000_0000_0000 && d@ == sha1_of(data@),
            None => data@.len() >= 0x2000_0000_0000_0000,
        },
{
    if digestible(data) {
        Some(sha1_digest(data))
    } else {
        None
    }
}

/// Whether two byte strings are the same.
pub fn bytes_equal(a: &[u8], b: &[u8]) -> (same: bool)
    ensures
        same == (a@ == b@),
{
    if a.len() != b.len() {
        return false;
    }
    let mut i: usize = 0;
    while i < a.len()
        invariant
            i <= a@.len(),
            a@.len() == b@.len(),
            a@.take(i as int) == b@.take(i as int),
        decreases a@.len() - i,
    {
        if a[i] != b[i] {
            proof {
                assert(a@[i as int] != b@[i as int]);
            }
            return false;
        }
        proof {
            assert(a@.take(i + 1) =~= a@.take(i as int).push(a@[i as int]));
            assert(b@.take(i + 1) =~= b@.take(i as int).push(b@[i as int]));
        }
        i = i + 1;
    }
    proof {
        assert(a@.take(a@.len() as int) =~= a@);
        assert(b@.take(b@.len() as int) =~= b@);
    }
    true
}

/// The message for a digest that is not the recorded one.
pub open spec fn checksum_message(expected: Seq<u8>, calculated: Seq<u8>) -> Seq<char> {
    "Expected sha256 checksum "@ + hex_string(expected) + " but calculated "@ + hex_string(
        calculated,
    )
}

/// Holds the digest of restored bytes against the recorded one.
pub fn verify_checksum(expected: &[u8], calculated: &[u8]) -> (outcome: Result<(), Error>)
    ensures
        match outcome {
            Ok(_) => expected@ == calculated@,
            Err(e) => expected@ != calculated@ && e.kind == ErrorKind::IntegrityError && e.message@
                == checksum_message(expected@, calculated@),
        },
{
    if bytes_equal(expected, calculated) {
        Ok(())
    } else {
        let mut message = String::from_str("Expected sha256 checksum ");
        let expected_hex = encode_hex(expected);
        message.append(expected_hex.as_str());
        message.append(" but calculated ");
        let calculated_hex = encode_hex(calculated);
        message.append(calculated_hex.as_str());
        Err(Error { kind: ErrorKind::IntegrityError, message })
    }
}

} // verus!
