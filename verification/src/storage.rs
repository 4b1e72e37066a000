//! The chunk cache: three tiers, each a bounded least-recently-used cache
//! keyed by the chunk's identifier in hexadecimal.
//!
//! The first tier holds decompressed chunks in memory, the second
//! compressed chunks in memory, the third compressed chunks in files; of
//! the third the cache holds only the names.  A tier that is full drops the
//! entry that was used longest ago; what one tier drops stays in the tiers
//! below.  The manager only keeps the books: compressing, decompressing,
//! and reading, writing and deleting the files is the caller's part.

use lru_cache::LruCache;
use std::hash::{BuildHasher, Hash};
use vstd::prelude::*;

verus! {

/// `LruCache` of the lru-cache crate, taken as it is: what a cache holds is
/// known here only through `lru_entries` and `lru_capacity`.
#[verifier::external_type_specification]
#[verifier::external_body]
#[verifier::reject_recursive_types(K)]
#[verifier::reject_recursive_types(V)]
#[verifier::reject_recursive_types(S)]
pub struct ExLruCache<K: Eq + Hash, V, S: BuildHasher>(LruCache<K, V, S>);

/// One entry of a cache: the key and the bytes held for it.
pub type CacheEntry = (Seq<char>, Seq<u8>);

/// The entries of an `LruCache` of the lru-cache crate, the one used
/// longest ago first.
pub uninterp spec fn lru_entries(cache: LruCache<String, Vec<u8>>) -> Seq<CacheEntry>;

/// The number of entries that an `LruCache` was made to hold.
pub uninterp spec fn lru_capacity(cache: LruCache<String, Vec<u8>>) -> nat;

/// The position of the entry for `key`, if there is one.
pub open spec fn position_of(entries: Seq<CacheEntry>, key: Seq<char>) -> Option<int>
    decreases entries.len(),
{
    if entries.len() == 0 {
        None
    } else if entries.last().0 == key {
        Some(entries.len() - 1)
    } else {
        position_of(entries.drop_last(), key)
    }
}

/// The bytes held for `key`, if any.
pub open spec fn lookup(entries: Seq<CacheEntry>, key: Seq<char>) -> Option<Seq<u8>> {
    match position_of(entries, key) {
        Some(i) => Some(entries[i].1),
        None => None,
    }
}

/// The entries without the one for `key`.
pub open spec fn without(entries: Seq<CacheEntry>, key: Seq<char>) -> Seq<CacheEntry>
    decreases entries.len(),
{
    if entries.len() == 0 {
        Seq::empty()
    } else if entries.last().0 == key {
        without(entries.drop_last(), key)
    } else {
        without(entries.drop_last(), key).push(entries.last())
    }
}

/// The entries after `value` has been put in for `key` in a cache that
/// holds `capacity` entries: the entry is the one used last, and where
/// there are now too many the one used longest ago is dropped.
pub open spec fn inserted(
    entries: Seq<CacheEntry>,
    key: Seq<char>,
    value: Seq<u8>,
    capacity: nat,
) -> Seq<CacheEntry> {
    let appended = without(entries, key).push((key, value));
    if appended.len() > capacity {
        appended.skip(1)
    } else {
        appended
    }
}

/// The entries after the one for `key` has been used: it is now the one
/// used last.
pub open spec fn refreshed(entries: Seq<CacheEntry>, key: Seq<char>) -> Seq<CacheEntry> {
    match position_of(entries, key) {
        Some(i) => entries.remove(i).push(entries[i]),
        None => entries,
    }
}

/// What holds of the entries of every cache: no key occurs twice, and
/// there are no more entries than the cache was made to hold.
pub open spec fn lru_valid(entries: Seq<CacheEntry>, capacity: nat) -> bool {
    &&& entries.len() <= capacity
    &&& forall|i: int, j: int|
        0 <= i < j < entries.len() ==> (#[trigger] entries[i]).0 != (#[trigger] entries[j]).0
}

/// `LruCache::new` of the lru-cache crate: an empty cache that holds at
/// most `capacity` entries.
#[verifier::external_body]
pub(crate) fn lru_new(capacity: usize) -> (cache: LruCache<String, Vec<u8>>)
    ensures
        lru_entries(cache) == Seq::<CacheEntry>::empty(),
        lru_capacity(cache) == capacity,
{
    LruCache::new(capacity)
}

/// `LruCache::insert` of the lru-cache crate: the value takes the place of
/// what was held for the key, which is returned, and the entry becomes the
/// one used last; if the cache then holds more than its capacity, the entry
/// used longest ago is removed.
#[verifier::external_body]
pub(crate) fn lru_insert(cache: &mut LruCache<String, Vec<u8>>, key: String, value: Vec<u8>) -> (previous:
    Option<Vec<u8>>)
    ensures
        lru_capacity(*final(cache)) == lru_capacity(*old(cache)),
        lru_entries(*final(cache)) == inserted(
            lru_entries(*old(cache)),
            key@,
            value@,
            lru_capacity(*old(cache)),
        ),
        lru_valid(lru_entries(*final(cache)), lru_capacity(*final(cache))),
        match previous {
            Some(bytes) => lookup(lru_entries(*old(cache)), key@) == Some(bytes@),
            None => lookup(lru_entries(*old(cache)), key@).is_none(),
        },
{
    cache.insert(key, value)
}

/// `LruCache::get_mut` of the lru-cache crate, with the value copied out:
/// where the key has an entry, its value is returned and the entry becomes
/// the one used last; where it has none, nothing changes.
#[verifier::external_body]
pub(crate) fn lru_get(cache: &mut LruCache<String, Vec<u8>>, key: &str) -> (value: Option<Vec<u8>>)
    ensures
        lru_capacity(*final(cache)) == lru_capacity(*old(cache)),
        lru_entries(*final(cache)) == refreshed(lru_entries(*old(cache)), key@),
        lru_valid(lru_entries(*old(cache)), lru_capacity(*old(cache))),
        lru_valid(lru_entries(*final(cache)), lru_capacity(*final(cache))),
        match value {
            Some(bytes) => lookup(lru_entries(*old(cache)), key@) == Some(bytes@),
            None => lookup(lru_entries(*old(cache)), key@).is_none(),
        },
{
    cache.get_mut(key).cloned()
}

/// `LruCache::remove_lru` of the lru-cache crate: the entry used longest
/// ago is removed and returned; an empty cache stays empty.
#[verifier::external_body]
pub(crate) fn lru_remove_lru(cache: &mut LruCache<String, Vec<u8>>) -> (removed: Option<
    (String, Vec<u8>),
>)
    ensures
        lru_capacity(*final(cache)) == lru_capacity(*old(cache)),
        lru_valid(lru_entries(*final(cache)), lru_capacity(*final(cache))),
        match removed {
            Some((key, value)) => lru_entries(*old(cache)).len() > 0 && lru_entries(*old(cache))[0]
                == (key@, value@) && lru_entries(*final(cache)) == lru_entries(*old(cache)).skip(
                1,
            ),
            None => lru_entries(*old(cache)).len() == 0 && lru_entries(*final(cache))
                == lru_entries(*old(cache)),
        },
{
    cache.remove_lru()
}

/// `LruCache::len` of the lru-cache crate: the number of entries.
#[verifier::external_body]
pub(crate) fn lru_len(cache: &LruCache<String, Vec<u8>>) -> (len: usize)
    ensures
        len == lru_entries(*cache).len(),
{
    cache.len()
}

/// `LruCache::capacity` of the lru-cache crate: the number of entries that
/// the cache was made to hold.
#[verifier::external_body]
pub(crate) fn lru_capacity_of(cache: &LruCache<String, Vec<u8>>) -> (capacity: usize)
    ensures
        capacity == lru_capacity(*cache),
{
    cache.capacity()
}

/// Where a key is found it is; where it is not found it is not there.
pub proof fn lemma_position_of(entries: Seq<CacheEntry>, key: Seq<char>)
    ensures
        match position_of(entries, key) {
            Some(i) => 0 <= i < entries.len() && entries[i].0 == key,
            None => forall|k: int| 0 <= k < entries.len() ==> (#[trigger] entries[k]).0 != key,
        },
    decreases entries.len(),
{
    if entries.len() > 0 && entries.last().0 != key {
        lemma_position_of(entries.drop_last(), key);
        if position_of(entries, key).is_none() {
            assert forall|k: int| 0 <= k < entries.len() implies (#[trigger] entries[k]).0
                != key by {
                if k < entries.len() - 1 {
                    assert(entries.drop_last()[k] == entries[k]);
                }
            }
        }
    }
}

/// Taking out the entry of a key that has none changes nothing.
pub proof fn lemma_without_absent(entries: Seq<CacheEntry>, key: Seq<char>)
    requires
        forall|k: int| 0 <= k < entries.len() ==> (#[trigger] entries[k]).0 != key,
    ensures
        without(entries, key) == entries,
    decreases entries.len(),
{
    if entries.len() > 0 {
        assert forall|k: int| 0 <= k < entries.drop_last().len() implies (
        #[trigger] entries.drop_last()[k]).0 != key by {
            assert(entries.drop_last()[k] == entries[k]);
        }
        lemma_without_absent(entries.drop_last(), key);
        assert(entries[entries.len() - 1].0 != key);
        assert(entries.drop_last().push(entries.last()) =~= entries);
    } else {
        assert(entries =~= Seq::<CacheEntry>::empty());
    }
}

/// Where no key occurs twice, taking out the entry of a key takes out the
/// one entry that has it.
pub proof fn lemma_without_at(entries: Seq<CacheEntry>, key: Seq<char>, i: int)
    requires
        0 <= i < entries.len(),
        entries[i].0 == key,
        forall|a: int, b: int|
            0 <= a < b < entries.len() ==> (#[trigger] entries[a]).0 != (#[trigger] entries[b]).0,
    ensures
        without(entries, key) == entries.remove(i),
    decreases entries.len(),
{
    let front = entries.drop_last();
    if i == entries.len() - 1 {
        assert forall|k: int| 0 <= k < front.len() implies (#[trigger] front[k]).0 != key by {
            assert(front[k] == entries[k]);
            assert(entries[k].0 != entries[i].0);
        }
        lemma_without_absent(front, key);
        assert(entries.remove(i) =~= front);
    } else {
        assert(entries[i].0 != entries[entries.len() - 1].0);
        assert(front[i] == entries[i]);
        assert forall|a: int, b: int| 0 <= a < b < front.len() implies (#[trigger] front[a]).0 != (
        #[trigger] front[b]).0 by {
            assert(front[a] == entries[a]);
            assert(front[b] == entries[b]);
        }
        lemma_without_at(front, key, i);
        assert(front.remove(i).push(entries.last()) =~= entries.remove(i));
    }
}

/// What a look in the cache found.
#[derive(Clone, Debug, PartialEq, Eq)]
pub enum CacheLookup {
    /// The decompressed chunk.
    Uncompressed(Vec<u8>),
    /// The compressed chunk: the caller decompresses it and hands the
    /// result to `store_uncompressed`.
    Compressed(Vec<u8>),
    /// The path of the file that holds the compressed chunk: the caller
    /// reads it, hands the bytes to `store_compressed`, decompresses them
    /// and hands the result to `store_uncompressed`.
    OnDisk(String),
    /// The chunk is in no tier.
    Miss,
}

/// What the caller is to do to the files of the third tier.
#[derive(Clone, Debug, PartialEq, Eq)]
pub struct StorageActions {
    /// The path at which the compressed chunk is to be written, if it is
    /// to be.
    pub write: Option<String>,
    /// The path of the file to delete, if one was dropped.
    pub delete: Option<String>,
}

/// The state of the three tiers.
pub struct StorageSpec {
    pub uncompressed: Seq<CacheEntry>,
    pub uncompressed_capacity: nat,
    pub compressed: Seq<CacheEntry>,
    pub compressed_capacity: nat,
    pub filesystem: Seq<CacheEntry>,
    pub filesystem_capacity: nat,
    pub filesystem_cache_path: Seq<char>,
}

/// The path of the file that holds the chunk `key`.
pub open spec fn cache_file_path(filesystem_cache_path: Seq<char>, key: Seq<char>) -> Seq<char> {
    filesystem_cache_path + "/"@ + key
}

/// The chunk cache.
pub struct StorageManager {
    uncompressed: LruCache<String, Vec<u8>>,
    compressed: LruCache<String, Vec<u8>>,
    filesystem: LruCache<String, Vec<u8>>,
    filesystem_cache_path: String,
}

impl View for StorageManager {
    type V = StorageSpec;

    closed spec fn view(&self) -> StorageSpec {
        StorageSpec {
            uncompressed: lru_entries(self.uncompressed),
            uncompressed_capacity: lru_capacity(self.uncompressed),
            compressed: lru_entries(self.compressed),
            compressed_capacity: lru_capacity(self.compressed),
            filesystem: lru_entries(self.filesystem),
            filesystem_capacity: lru_capacity(self.filesystem),
            filesystem_cache_path: self.filesystem_cache_path@,
        }
    }
}

fn file_path(directory: &str, key: &str) -> (path: String)
    ensures
        path@ == cache_file_path(directory@, key@),
{
    let mut path = String::from_str(directory);
    path.append("/");
    path.append(key);
    path
}

impl StorageManager {
    /// A cache with nothing in it.
    pub fn new(
        filesystem_cache_path: String,
        max_uncompressed_memory_cache_entries: usize,
        max_compressed_memory_cache_entries: usize,
        max_compressed_filesystem_cache_entries: usize,
    ) -> (manager: StorageManager)
        ensures
            manager@ == (StorageSpec {
                uncompressed: Seq::empty(),
                uncompressed_capacity: max_uncompressed_memory_cache_entries as nat,
                compressed: Seq::empty(),
                compressed_capacity: max_compressed_memory_cache_entries as nat,
                filesystem: Seq::empty(),
                filesystem_capacity: max_compressed_filesystem_cache_entries as nat,
                filesystem_cache_path: filesystem_cache_path@,
            }),
    {
        StorageManager {
            uncompressed: lru_new(max_uncompressed_memory_cache_entries),
            compressed: lru_new(max_compressed_memory_cache_entries),
            filesystem: lru_new(max_compressed_filesystem_cache_entries),
            filesystem_cache_path,
        }
    }

    /// Looks for a chunk, in the first tier, then the second, then the
    /// third.  The tier that has it counts the chunk as used; the others
    /// are left as they are.
    pub fn get(&mut self, key: &str) -> (found: CacheLookup)
        ensures
            match found {
                CacheLookup::Uncompressed(data) => lookup(old(self)@.uncompressed, key@) == Some(
                    data@,
                ) && final(self)@ == (StorageSpec {
                    uncompressed: refreshed(old(self)@.uncompressed, key@),
                    ..old(self)@
                }),
                CacheLookup::Compressed(data) => lookup(old(self)@.uncompressed, key@).is_none()
                    && lookup(old(self)@.compressed, key@) == Some(data@) && final(self)@ == (
                    StorageSpec { compressed: refreshed(old(self)@.compressed, key@), ..old(self)@ }),
                CacheLookup::OnDisk(path) => lookup(old(self)@.uncompressed, key@).is_none()
                    && lookup(old(self)@.compressed, key@).is_none() && lookup(
                    old(self)@.filesystem,
                    key@,
                ) is Some && path@ == cache_file_path(old(self)@.filesystem_cache_path, key@)
                    && final(self)@ == (StorageSpec {
                    filesystem: refreshed(old(self)@.filesystem, key@),
                    ..old(self)@
                }),
                CacheLookup::Miss => lookup(old(self)@.uncompressed, key@).is_none() && lookup(
                    old(self)@.compressed,
                    key@,
                ).is_none() && lookup(old(self)@.filesystem, key@).is_none() && final(self)@
                    == old(self)@,
            },
    {
        match lru_get(&mut self.uncompressed, key) {
            Some(data) => {
                return CacheLookup::Uncompressed(data);
            },
            None => {},
        }
        match lru_get(&mut self.compressed, key) {
            Some(data) => {
                return CacheLookup::Compressed(data);
            },
            None => {},
        }
        match lru_get(&mut self.filesystem, key) {
            Some(_) => CacheLookup::OnDisk(file_path(self.filesystem_cache_path.as_str(), key)),
            None => CacheLookup::Miss,
        }
    }

    /// Puts a decompressed chunk into the first tier.  What the tier drops
    /// to make room stays in the other tiers.
    pub fn store_uncompressed(&mut self, key: String, data: Vec<u8>)
        ensures
            final(self)@ == (StorageSpec {
                uncompressed: inserted(
                    old(self)@.uncompressed,
                    key@,
                    data@,
                    old(self)@.uncompressed_capacity,
                ),
                ..old(self)@
            }),
    {
        let _ = lru_insert(&mut self.uncompressed, key, data);
    }

    /// Puts a compressed chunk into the second tier.  What the tier drops
    /// to make room stays in the third.
    pub fn store_compressed(&mut self, key: String, data: Vec<u8>)
        ensures
            final(self)@ == (StorageSpec {
                compressed: inserted(
                    old(self)@.compressed,
                    key@,
                    data@,
                    old(self)@.compressed_capacity,
                ),
                ..old(self)@
            }),
    {
        let _ = lru_insert(&mut self.compressed, key, data);
    }

    /// Enters a chunk into the books of the third tier, and says what is to
    /// be done to the files: where the tier holds anything at all, the
    /// chunk's file is to be written; where the tier was full and the chunk
    /// is new to it, the file of the chunk used longest ago is to be
    /// deleted.
    pub fn store_on_disk(&mut self, key: &str) -> (actions: StorageActions)
        ensures
            final(self)@ == (StorageSpec {
                filesystem: inserted(
                    old(self)@.filesystem,
                    key@,
                    Seq::empty(),
                    old(self)@.filesystem_capacity,
                ),
                ..old(self)@
            }),
            match actions.write {
                Some(path) => old(self)@.filesystem_capacity > 0 && path@ == cache_file_path(
                    old(self)@.filesystem_cache_path,
                    key@,
                ),
                None => old(self)@.filesystem_capacity == 0,
            },
            match actions.delete {
                Some(path) => old(self)@.filesystem_capacity > 0 && lookup(
                    old(self)@.filesystem,
                    key@,
                ).is_none() && old(self)@.filesystem.len() == old(self)@.filesystem_capacity
                    && path@ == cache_file_path(
                    old(self)@.filesystem_cache_path,
                    old(self)@.filesystem[0].0,
                ),
                None => old(self)@.filesystem_capacity == 0 || lookup(
                    old(self)@.filesystem,
                    key@,
                ) is Some || old(self)@.filesystem.len() < old(self)@.filesystem_capacity,
            },
    {
        let ghost before = lru_entries(self.filesystem);
        let ghost capacity = lru_capacity(self.filesystem);
        let present = lru_get(&mut self.filesystem, key).is_some();
        proof {
            lemma_position_of(before, key@);
        }
        if lru_capacity_of(&self.filesystem) == 0 {
            proof {
                assert(before.len() == 0);
                assert(without(before, key@) =~= Seq::<CacheEntry>::empty());
                assert(inserted(before, key@, Seq::empty(), capacity) =~= before);
            }
            return StorageActions { write: None, delete: None };
        }
        let mut delete: Option<String> = None;
        if !present {
            proof {
                lemma_without_absent(before, key@);
            }
            if lru_len(&self.filesystem) >= lru_capacity_of(&self.filesystem) {
                match lru_remove_lru(&mut self.filesystem) {
                    Some((dropped, _)) => {
                        delete = Some(
                            file_path(self.filesystem_cache_path.as_str(), dropped.as_str()),
                        );
                    },
                    None => {},
                }
            }
        }
        let ghost mid = lru_entries(self.filesystem);
        proof {
            lemma_position_of(mid, key@);
            if present {
                let i = position_of(before, key@)->0;
                lemma_without_at(before, key@, i);
                let last = mid.len() - 1;
                assert(mid[last].0 == key@);
                lemma_without_at(mid, key@, last);
                assert(mid.remove(last) =~= before.remove(i));
            } else {
                assert forall|k: int| 0 <= k < mid.len() implies (#[trigger] mid[k]).0 != key@ by {
                    if mid.len() < before.len() {
                        assert(mid[k] == before[k + 1]);
                    }
                }
                lemma_without_absent(mid, key@);
                if mid.len() < before.len() {
                    assert(before.push((key@, Seq::<u8>::empty())).skip(1) =~= mid.push(
                        (key@, Seq::<u8>::empty()),
                    ));
                }
            }
        }
        let _ = lru_insert(&mut self.filesystem, String::from_str(key), Vec::new());
        StorageActions {
            write: Some(file_path(self.filesystem_cache_path.as_str(), key)),
            delete,
        }
    }

    /// Takes in a chunk that has just been read from its bundle: the
    /// decompressed bytes go to the first tier, the compressed to the
    /// second, and the chunk is entered into the books of the third.
    pub fn insert(&mut self, key: &str, uncompressed: Vec<u8>, compressed: Vec<u8>) -> (actions:
        StorageActions)
        ensures
            final(self)@ == (StorageSpec {
                uncompressed: inserted(
                    old(self)@.uncompressed,
                    key@,
                    uncompressed@,
                    old(self)@.uncompressed_capacity,
                ),
                compressed: inserted(
                    old(self)@.compressed,
                    key@,
                    compressed@,
                    old(self)@.compressed_capacity,
                ),
                filesystem: inserted(
                    old(self)@.filesystem,
                    key@,
                    Seq::empty(),
                    old(self)@.filesystem_capacity,
                ),
                ..old(self)@
            }),
            match actions.write {
                Some(path) => old(self)@.filesystem_capacity > 0 && path@ == cache_file_path(
                    old(self)@.filesystem_cache_path,
                    key@,
                ),
                None => old(self)@.filesystem_capacity == 0,
            },
            match actions.delete {
                Some(path) => old(self)@.filesystem_capacity > 0 && lookup(
                    old(self)@.filesystem,
                    key@,
                ).is_none() && old(self)@.filesystem.len() == old(self)@.filesystem_capacity
                    && path@ == cache_file_path(
                    old(self)@.filesystem_cache_path,
                    old(self)@.filesystem[0].0,
                ),
                None => old(self)@.filesystem_capacity == 0 || lookup(
                    old(self)@.filesystem,
                    key@,
                ) is Some || old(self)@.filesystem.len() < old(self)@.filesystem_capacity,
            },
    {
        self.store_uncompressed(String::from_str(key), uncompressed);
        self.store_compressed(String::from_str(key), compressed);
        self.store_on_disk(key)
    }
}

} // verus!
