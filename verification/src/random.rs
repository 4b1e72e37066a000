//! Fresh names: random bytes for new identifiers and initialisation vectors,
//! random characters for staged files.

use crate::data::Id;
use rand::Rng;
use vstd::prelude::*;

verus! {

/// Whether `c` is one of `A`-`Z`, `a`-`z`, `0`-`9`.
pub open spec fn is_ascii_alphanumeric(c: char) -> bool {
    ('A' <= c <= 'Z') || ('a' <= c <= 'z') || ('0' <= c <= '9')
}

/// `count` bytes from the thread's random number generator of the rand
/// crate (`thread_rng().gen_iter::<u8>().take(count)`).  Nothing is known of
/// the bytes but how many there are.
#[verifier::external_body]
pub(crate) fn random_bytes(count: usize) -> (bytes: Vec<u8>)
    ensures
        bytes@.len() == count,
{
    rand::thread_rng().gen_iter::<u8>().take(count).collect()
}

/// `count` characters from `thread_rng().gen_ascii_chars()` of the rand
/// crate, which draws each from `A`-`Z`, `a`-`z` and `0`-`9`.
#[verifier::external_body]
pub(crate) fn random_ascii_chars(count: usize) -> (text: String)
    ensures
        text@.len() == count,
        forall|i: int| 0 <= i < text@.len() ==> is_ascii_alphanumeric(#[trigger] text@[i]),
{
    rand::thread_rng().gen_ascii_chars().take(count).collect()
}

/// A fresh identifier, for a new index file.
pub fn random_id() -> (id: Id)
{
    let bytes = random_bytes(24);
    Id::from_id_bytes(bytes.as_slice())
}

/// A fresh name for a staged file: sixteen letters and digits.
pub fn random_temp_name() -> (name: String)
    ensures
        name@.len() == 16,
        forall|i: int| 0 <= i < 16 ==> is_ascii_alphanumeric(#[trigger] name@[i]),
{
    random_ascii_chars(16)
}

} // verus!
