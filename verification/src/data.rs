//! Sizes, defaults and the identifier type shared by the whole repository.

use crate::hex::{decode_hex, encode_hex, hex_string, is_hex_text, lemma_hex_string_injective};
use vstd::bytes::{
    lemma_auto_spec_u128_to_from_le_bytes, lemma_auto_spec_u64_to_from_le_bytes,
    spec_u128_from_le_bytes, spec_u128_to_le_bytes, spec_u64_from_le_bytes, spec_u64_to_le_bytes,
    u128_from_le_bytes, u128_to_le_bytes, u64_from_le_bytes, u64_to_le_bytes,
};
use vstd::prelude::*;
use vstd::slice::slice_subrange;

verus! {

/// Length of a repository encryption key.
pub const KEY_SIZE: usize = 16;

/// Length of the key-check authentication code in the info record.
pub const HMAC_SIZE: usize = 20;

/// Length of the per-file initialisation vector.
pub const IV_SIZE: usize = 16;

/// Number of bytes a random-access reader fetches at a time.
pub const BUFFER_SIZE: usize = 0x10000;

pub const WORK_JOBS_TOTAL: usize = 0x1000;

pub const WORK_JOBS_BATCH: usize = 0x100;

/// Default capacity of the cache of decompressed chunks held in memory.
pub const MAX_UNCOMPRESSED_MEMORY_CACHE_ENTRIES: usize = 0x800;

/// Default capacity of the cache of compressed chunks held in memory.
pub const MAX_COMPRESSED_MEMORY_CACHE_ENTRIES: usize = 0x4000;

/// Default capacity of the cache of compressed chunks held on disk.
pub const MAX_COMPRESSED_FILESYSTEM_CACHE_ENTRIES: usize = 0x20000;

/// Default directory of the on-disk chunk cache.
pub const FILESYSTEM_CACHE_PATH: &'static str = "/tmp/rzbackup-cache";

/// Length in bytes of a bundle, chunk or index identifier.
pub const ID_SIZE: usize = 24;

/// A 24-byte identifier.  Bundles, chunks and index files are all named by
/// one; two identifiers are equal when their bytes are.
///
/// The bytes are kept packed in two integers so that an identifier can key
/// the hash maps of the standard library.
#[derive(Clone, Copy, Debug, PartialEq, Eq, Hash, Structural)]
pub struct Id {
    pub head: u128,
    pub tail: u64,
}

pub type BundleId = Id;

pub type ChunkId = Id;

pub type IndexId = Id;

/// Contents of a chunk.
pub type ChunkData = Vec<u8>;

/// A repository encryption key, `KEY_SIZE` bytes long.
pub type EncryptionKey = [u8; 16];

impl View for Id {
    type V = Seq<u8>;

    /// The 24 bytes of the identifier, in file order.
    open spec fn view(&self) -> Seq<u8> {
        spec_u128_to_le_bytes(self.head) + spec_u64_to_le_bytes(self.tail)
    }
}

/// An identifier always has 24 bytes, and its bytes determine it.
pub proof fn lemma_id_bytes(a: Id, b: Id)
    ensures
        a@.len() == 24,
        a@ == b@ ==> a == b,
        a@.subrange(0, 16) == spec_u128_to_le_bytes(a.head),
        a@.subrange(16, 24) == spec_u64_to_le_bytes(a.tail),
{
    lemma_auto_spec_u128_to_from_le_bytes();
    lemma_auto_spec_u64_to_from_le_bytes();
    assert(a@.subrange(0, 16) =~= spec_u128_to_le_bytes(a.head));
    assert(a@.subrange(16, 24) =~= spec_u64_to_le_bytes(a.tail));
    assert(b@.subrange(0, 16) =~= spec_u128_to_le_bytes(b.head));
    assert(b@.subrange(16, 24) =~= spec_u64_to_le_bytes(b.tail));
    if a@ == b@ {
        assert(spec_u128_from_le_bytes(spec_u128_to_le_bytes(a.head)) == a.head);
        assert(spec_u128_from_le_bytes(spec_u128_to_le_bytes(b.head)) == b.head);
        assert(spec_u64_from_le_bytes(spec_u64_to_le_bytes(a.tail)) == a.tail);
        assert(spec_u64_from_le_bytes(spec_u64_to_le_bytes(b.tail)) == b.tail);
    }
}

/// The identifier with the given 24 bytes.
pub open spec fn id_of_bytes(bytes: Seq<u8>) -> Id
    recommends
        bytes.len() == 24,
{
    Id {
        head: spec_u128_from_le_bytes(bytes.subrange(0, 16)),
        tail: spec_u64_from_le_bytes(bytes.subrange(16, 24)),
    }
}

/// Every string of 24 bytes is the view of exactly one identifier.
pub proof fn lemma_id_of_bytes(bytes: Seq<u8>)
    requires
        bytes.len() == 24,
    ensures
        id_of_bytes(bytes)@ == bytes,
{
    lemma_auto_spec_u128_to_from_le_bytes();
    lemma_auto_spec_u64_to_from_le_bytes();
    assert(id_of_bytes(bytes)@ =~= bytes.subrange(0, 16) + bytes.subrange(16, 24));
    assert(bytes.subrange(0, 16) + bytes.subrange(16, 24) =~= bytes);
}

impl Id {
    /// The identifier made of the given 24 bytes.
    pub fn from_id_bytes(bytes: &[u8]) -> (id: Id)
        requires
            bytes@.len() == 24,
        ensures
            id@ == bytes@,
            id == id_of_bytes(bytes@),
    {
        let head = u128_from_le_bytes(slice_subrange(bytes, 0, 16));
        let tail = u64_from_le_bytes(slice_subrange(bytes, 16, 24));
        proof {
            lemma_id_of_bytes(bytes@);
        }
        Id { head, tail }
    }

    /// The identifier made of the given bytes, if there are exactly 24.
    pub fn from_bytes(bytes: &[u8]) -> (id: Option<Id>)
        ensures
            id is Some <==> bytes@.len() == 24,
            id matches Some(found) ==> found@ == bytes@,
    {
        if bytes.len() != ID_SIZE {
            return None;
        }
        Some(Id::from_id_bytes(bytes))
    }

    /// The 24 bytes of the identifier.
    pub fn to_bytes(&self) -> (bytes: Vec<u8>)
        ensures
            bytes@ == self@,
            bytes@.len() == 24,
    {
        let mut bytes = u128_to_le_bytes(self.head);
        let mut rest = u64_to_le_bytes(self.tail);
        bytes.append(&mut rest);
        proof {
            lemma_id_bytes(*self, *self);
        }
        bytes
    }

    /// The name of the identifier in the file system: 48 lowercase
    /// hexadecimal digits.
    pub fn to_hex(&self) -> (text: String)
        ensures
            text@ == hex_string(self@),
            text@.len() == 48,
    {
        let bytes = self.to_bytes();
        encode_hex(bytes.as_slice())
    }

    /// Reads an identifier from its file name.
    ///
    /// Succeeds exactly on the names that `to_hex` produces, and gives back
    /// the identifier that was formatted.
    pub fn parse(text: &str) -> (id: Option<Id>)
        ensures
            match id {
                Some(found) => text@ == hex_string(found@),
                None => forall|other: Id| text@ != hex_string(other@),
            },
    {
        match decode_hex(text) {
            Some(bytes) => {
                match Id::from_bytes(bytes.as_slice()) {
                    Some(found) => Some(found),
                    None => {
                        proof {
                            assert forall|other: Id| text@ != hex_string(other@) by {
                                lemma_id_bytes(other, other);
                                if text@ == hex_string(other@) {
                                    lemma_hex_string_injective(bytes@, other@);
                                }
                            }
                        }
                        None
                    },
                }
            },
            None => {
                proof {
                    assert forall|other: Id| text@ != hex_string(other@) by {
                        if text@ == hex_string(other@) {
                            assert(is_hex_text(text@));
                        }
                    }
                }
                None
            },
        }
    }
}

/// Formatting and then parsing an identifier gives it back.
pub proof fn lemma_parse_to_hex(id: Id, text: Seq<char>, parsed: Id)
    requires
        text == hex_string(id@),
        text == hex_string(parsed@),
    ensures
        parsed == id,
{
    lemma_hex_string_injective(id@, parsed@);
    lemma_id_bytes(id, parsed);
}

} // verus!
