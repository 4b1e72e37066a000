//! Making sense of directory listings: which files are index files and
//! bundles, and where the bundles are kept.

use crate::data::{BundleId, Id, IndexId};
use crate::hex::{encode_hex, hex_string};
use crate::index_cache::{is_id_name, id_named};
use vstd::prelude::*;

verus! {

/// A file as a directory listing shows it.
#[derive(Clone, Debug, PartialEq, Eq)]
pub struct ListedFile {
    pub file_name: String,
    pub size: u64,
}

/// An index file that was found: its identifier and the size of the file.
#[derive(Clone, Copy, Debug, PartialEq, Eq, Structural)]
pub struct FoundIndex {
    pub index_id: IndexId,
    pub size: u64,
}

/// The index files among the listed files, in order: those whose names are
/// identifiers.
pub open spec fn found_indexes(listing: Seq<ListedFile>) -> Seq<FoundIndex>
    decreases listing.len(),
{
    if listing.len() == 0 {
        Seq::empty()
    } else {
        let front = found_indexes(listing.drop_last());
        if is_id_name(listing.last().file_name@) {
            front.push(
                FoundIndex {
                    index_id: id_named(listing.last().file_name@),
                    size: listing.last().size,
                },
            )
        } else {
            front
        }
    }
}

/// The sizes of the index files added up.
pub open spec fn total_index_size(indexes: Seq<FoundIndex>) -> nat
    decreases indexes.len(),
{
    if indexes.len() == 0 {
        0
    } else {
        total_index_size(indexes.drop_last()) + indexes.last().size as nat
    }
}

/// Picks the index files out of the listing of the `index` directory, each
/// with its size.  A file whose name is no identifier is passed over.
pub fn scan_index_files(listing: &Vec<ListedFile>) -> (indexes: Vec<FoundIndex>)
    ensures
        indexes@ == found_indexes(listing@),
{
    let mut indexes: Vec<FoundIndex> = Vec::new();
    let mut i: usize = 0;
    proof {
        assert(listing@.take(0) =~= Seq::<ListedFile>::empty());
    }
    while i < listing.len()
        invariant
            i <= listing@.len(),
            indexes@ == found_indexes(listing@.take(i as int)),
        decreases listing@.len() - i,
    {
        proof {
            assert(listing@.take(i + 1).drop_last() =~= listing@.take(i as int));
            assert(listing@.take(i + 1).last() == listing@[i as int]);
        }
        match Id::parse(listing[i].file_name.as_str()) {
            Some(index_id) => {
                proof {
                    assert(is_id_name(listing@[i as int].file_name@));
                    crate::data::lemma_parse_to_hex(
                        index_id,
                        listing@[i as int].file_name@,
                        id_named(listing@[i as int].file_name@),
                    );
                }
                indexes.push(FoundIndex { index_id, size: listing[i].size });
            },
            None => {},
        }
        i = i + 1;
    }
    proof {
        assert(listing@.take(i as int) =~= listing@);
    }
    indexes
}

/// Adds up the sizes of the index files; `None` where the sum does not fit
/// in 64 bits.
pub fn sum_index_sizes(indexes: &Vec<FoundIndex>) -> (total: Option<u64>)
    ensures
        match total {
            Some(sum) => sum == total_index_size(indexes@),
            None => total_index_size(indexes@) > u64::MAX,
        },
{
    let mut sum: u64 = 0;
    let mut i: usize = 0;
    proof {
        assert(indexes@.take(0) =~= Seq::<FoundIndex>::empty());
    }
    while i < indexes.len()
        invariant
            i <= indexes@.len(),
            sum == total_index_size(indexes@.take(i as int)),
        decreases indexes@.len() - i,
    {
        proof {
            assert(indexes@.take(i + 1).drop_last() =~= indexes@.take(i as int));
            assert(indexes@.take(i + 1).last() == indexes@[i as int]);
        }
        match sum.checked_add(indexes[i].size) {
            Some(next) => {
                sum = next;
            },
            None => {
                proof {
                    lemma_total_index_size_grows(indexes@, i + 1);
                }
                return None;
            },
        }
        i = i + 1;
    }
    proof {
        assert(indexes@.take(i as int) =~= indexes@);
    }
    Some(sum)
}

proof fn lemma_total_index_size_grows(indexes: Seq<FoundIndex>, n: int)
    requires
        0 <= n <= indexes.len(),
    ensures
        total_index_size(indexes.take(n)) <= total_index_size(indexes),
    decreases indexes.len() - n,
{
    if n < indexes.len() {
        assert(indexes.take(n + 1).drop_last() =~= indexes.take(n));
        lemma_total_index_size_grows(indexes, n + 1);
    } else {
        assert(indexes.take(n) =~= indexes);
    }
}

/// The bundles among the listed names, in order: those whose names are
/// identifiers.
pub open spec fn found_bundles(names: Seq<String>) -> Seq<BundleId> {
    crate::index_cache::parsed_names(names)
}

/// Picks the bundles out of the listings of the bundle directories.  A
/// file whose name is no identifier is passed over.
pub fn scan_bundle_files(names: &Vec<String>) -> (bundle_ids: Vec<BundleId>)
    ensures
        bundle_ids@ == found_bundles(names@),
{
    crate::index_cache::scan_names(names).ids
}

/// The name of the directory that holds the bundles whose identifier
/// begins with `byte`.
pub open spec fn bundle_group(byte: u8) -> Seq<char> {
    hex_string(seq![byte])
}

/// The names of the 256 directories below `bundles/` over which the bundles
/// are spread, in order.
pub fn bundle_directory_names() -> (names: Vec<String>)
    ensures
        names@.len() == 256,
        forall|b: int| 0 <= b < 256 ==> (#[trigger] names@[b])@ == bundle_group(b as u8),
{
    let mut names: Vec<String> = Vec::new();
    let mut byte: usize = 0;
    while byte < 256
        invariant
            byte <= 256,
            names@.len() == byte,
            forall|b: int| 0 <= b < byte ==> (#[trigger] names@[b])@ == bundle_group(b as u8),
        decreases 256 - byte,
    {
        let mut one: Vec<u8> = Vec::new();
        one.push(byte as u8);
        proof {
            assert(one@ =~= seq![byte as u8]);
        }
        names.push(encode_hex(one.as_slice()));
        byte = byte + 1;
    }
    names
}

/// The path of a file in a directory, both relative to the directory that
/// holds the backups: the name alone at the top, else the directory, a
/// slash and the name.
pub open spec fn joined_name(directory: Seq<char>, file_name: Seq<char>) -> Seq<char> {
    if directory.len() == 0 {
        file_name
    } else {
        directory + "/"@ + file_name
    }
}

/// The path of a backup below `backups/`, from the directory it was found
/// in and its file name.
pub fn join_backup_name(directory: &str, file_name: &str) -> (backup_name: String)
    ensures
        backup_name@ == joined_name(directory@, file_name@),
{
    if directory.unicode_len() == 0 {
        String::from_str(file_name)
    } else {
        let mut backup_name = String::from_str(directory);
        backup_name.append("/");
        backup_name.append(file_name);
        backup_name
    }
}

} // verus!
