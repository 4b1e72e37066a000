//! The master index: for every chunk, the bundle that holds it and its
//! size.
//!
//! It is built by going through the index files one after another and
//! through their entries in order.  An entry whose bundle does not exist is
//! passed over.  Where a chunk is listed more than once, the last listing
//! counts.

use crate::data::{BundleId, ChunkId, Id};
use crate::error::Error;
use crate::idmap::{IdMap, IdSet};
use crate::index_file::{entries_view, IndexEntrySpec, RawIndexEntry};
use crate::records::ChunkRecord;
use crate::text::{decimal, decimal_text};
use vstd::prelude::*;

verus! {

/// Where a chunk is to be found: the bundle that holds it, and the size of
/// its decompressed bytes.
#[derive(Clone, Copy, Debug, PartialEq, Eq, Structural)]
pub struct IndexEntry {
    pub bundle_id: BundleId,
    pub size: u64,
}

impl IndexEntry {
    pub open spec fn spec_new(bundle_id: BundleId, size: u64) -> IndexEntry {
        IndexEntry { bundle_id, size }
    }

    /// The entry for a chunk of `size` bytes in the bundle `bundle_id`.
    #[verifier::when_used_as_spec(spec_new)]
    pub fn new(bundle_id: BundleId, size: u64) -> (entry: IndexEntry)
        ensures
            entry == IndexEntry::spec_new(bundle_id, size),
    {
        IndexEntry { bundle_id, size }
    }

    pub open spec fn spec_bundle_id(&self) -> BundleId {
        self.bundle_id
    }

    /// The bundle that holds the chunk.
    #[verifier::when_used_as_spec(spec_bundle_id)]
    pub fn bundle_id(&self) -> (id: BundleId)
        ensures
            id == self.spec_bundle_id(),
    {
        self.bundle_id
    }

    pub open spec fn spec_size(&self) -> u64 {
        self.size
    }

    /// The size of the chunk's decompressed bytes.
    #[verifier::when_used_as_spec(spec_size)]
    pub fn size(&self) -> (size: u64)
        ensures
            size == self.spec_size(),
    {
        self.size
    }
}

/// One listing of a chunk in an index file.
pub type Listing = (ChunkId, IndexEntry);

/// The listing that a chunk record of the bundle `bundle_id` makes.
pub open spec fn listing_of(bundle_id: BundleId, record: ChunkRecord) -> Listing {
    (record.chunk_id, IndexEntry::spec_new(bundle_id, record.size as u64))
}

/// The listings that one entry of an index file makes, in order.
pub open spec fn entry_listings(entry: IndexEntrySpec) -> Seq<Listing> {
    entry.chunks.map_values(|record: ChunkRecord| listing_of(entry.bundle_id, record))
}

/// The listings that one index file makes, in order, leaving out the
/// entries of bundles that are not in `bundles`.
pub open spec fn index_listings(entries: Seq<IndexEntrySpec>, bundles: Set<BundleId>) -> Seq<
    Listing,
>
    decreases entries.len(),
{
    if entries.len() == 0 {
        Seq::empty()
    } else {
        index_listings(entries.drop_last(), bundles) + if bundles.contains(
            entries.last().bundle_id,
        ) {
            entry_listings(entries.last())
        } else {
            Seq::empty()
        }
    }
}

/// The listings of several index files, one file after another.
pub open spec fn all_listings(indexes: Seq<Seq<IndexEntrySpec>>, bundles: Set<BundleId>) -> Seq<
    Listing,
>
    decreases indexes.len(),
{
    if indexes.len() == 0 {
        Seq::empty()
    } else {
        all_listings(indexes.drop_last(), bundles) + index_listings(indexes.last(), bundles)
    }
}

/// The map that results from `base` when the listings are inserted in
/// order, each replacing what was there for its chunk.
pub open spec fn merged(base: Map<ChunkId, IndexEntry>, listings: Seq<Listing>) -> Map<
    ChunkId,
    IndexEntry,
>
    decreases listings.len(),
{
    if listings.len() == 0 {
        base
    } else {
        merged(base, listings.drop_last()).insert(listings.last().0, listings.last().1)
    }
}

/// The master index of a repository with the given index files and bundles.
pub open spec fn master_index(indexes: Seq<Seq<IndexEntrySpec>>, bundles: Set<BundleId>) -> Map<
    ChunkId,
    IndexEntry,
> {
    merged(Map::empty(), all_listings(indexes, bundles))
}

/// Inserting two runs of listings one after the other is inserting their
/// concatenation.
pub proof fn lemma_merged_concat(
    base: Map<ChunkId, IndexEntry>,
    first: Seq<Listing>,
    second: Seq<Listing>,
)
    ensures
        merged(base, first + second) == merged(merged(base, first), second),
    decreases second.len(),
{
    if second.len() == 0 {
        assert(first + second =~= first);
    } else {
        assert((first + second).drop_last() =~= first + second.drop_last());
        assert((first + second).last() == second.last());
        lemma_merged_concat(base, first, second.drop_last());
    }
}

/// A chunk is in the merged map exactly if it was in the base or is listed,
/// and it has the entry of its last listing.
pub proof fn lemma_merged_lookup(
    base: Map<ChunkId, IndexEntry>,
    listings: Seq<Listing>,
    chunk_id: ChunkId,
)
    ensures
        merged(base, listings).contains_key(chunk_id) <==> base.contains_key(chunk_id) || exists|
            i: int,
        |
            0 <= i < listings.len() && (#[trigger] listings[i]).0 == chunk_id,
        forall|i: int|
            0 <= i < listings.len() && (#[trigger] listings[i]).0 == chunk_id && (forall|j: int|
                i < j < listings.len() ==> (#[trigger] listings[j]).0 != chunk_id) ==> merged(
                base,
                listings,
            )[chunk_id] == listings[i].1,
        (forall|i: int| 0 <= i < listings.len() ==> (#[trigger] listings[i]).0 != chunk_id)
            ==> merged(base, listings)[chunk_id] == base[chunk_id],
    decreases listings.len(),
{
    if listings.len() > 0 {
        let front = listings.drop_last();
        lemma_merged_lookup(base, front, chunk_id);
        assert forall|i: int| 0 <= i < front.len() implies front[i] == listings[i] by {}
        if listings.last().0 == chunk_id {
            assert(listings[listings.len() - 1].0 == chunk_id);
        } else {
            if merged(base, listings).contains_key(chunk_id) && !base.contains_key(chunk_id) {
                let i = choose|i: int| 0 <= i < front.len() && (#[trigger] front[i]).0 == chunk_id;
                assert(listings[i].0 == chunk_id);
            }
            assert forall|i: int|
                0 <= i < listings.len() && (#[trigger] listings[i]).0 == chunk_id && (forall|
                    j: int,
                |
                    i < j < listings.len() ==> (#[trigger] listings[j]).0
                        != chunk_id) implies merged(base, listings)[chunk_id] == listings[i].1 by {
                assert(front[i] == listings[i]);
                assert forall|j: int| i < j < front.len() implies (#[trigger] front[j]).0
                    != chunk_id by {
                    assert(front[j] == listings[j]);
                }
            }
        }
    }
}

/// How many index files are read at a time on a machine with `cpus`
/// processors: seven thirds of one less than the processors, rounded up,
/// and one more.
pub open spec fn index_load_tasks(cpus: nat) -> nat {
    (((cpus - 1) * 7 + 2) / 3 + 1) as nat
}

/// How many index files are read at a time on a machine with `cpus`
/// processors; on a machine with so many processors that the number does
/// not fit, the largest number that does.
pub fn index_load_threads_for(cpus: usize) -> (tasks: usize)
    requires
        cpus >= 1,
    ensures
        tasks == if index_load_tasks(cpus as nat) <= usize::MAX {
            index_load_tasks(cpus as nat)
        } else {
            usize::MAX as nat
        },
        tasks >= 1,
{
    let wide: u128 = ((cpus as u128 - 1) * 7 + 2) / 3 + 1;
    if wide > usize::MAX as u128 {
        usize::MAX
    } else {
        wide as usize
    }
}

/// `num_cpus::get()` of the num_cpus crate: the number of logical
/// processors available, which its documentation promises to be at least 1.
#[verifier::external_body]
pub(crate) fn cpu_count() -> (cpus: usize)
    ensures
        cpus >= 1,
{
    num_cpus::get()
}

/// How many index files are read at a time on this machine.
pub fn index_load_threads() -> (tasks: usize)
    ensures
        tasks >= 1,
{
    index_load_threads_for(cpu_count())
}

/// Whether `name` is the file name of an identifier: 48 lowercase
/// hexadecimal digits.
pub open spec fn is_id_name(name: Seq<char>) -> bool {
    exists|id: Id| name == crate::hex::hex_string(id@)
}

/// The identifier that `name` is the file name of.
pub open spec fn id_named(name: Seq<char>) -> Id
    recommends
        is_id_name(name),
{
    choose|id: Id| name == crate::hex::hex_string(id@)
}

/// The names among `names` that are identifiers, parsed, in order.
pub open spec fn parsed_names(names: Seq<String>) -> Seq<Id>
    decreases names.len(),
{
    if names.len() == 0 {
        Seq::empty()
    } else {
        let front = parsed_names(names.drop_last());
        if is_id_name(names.last()@) {
            front.push(id_named(names.last()@))
        } else {
            front
        }
    }
}

/// The positions in `names` of the names that are no identifiers, in order.
pub open spec fn invalid_positions(names: Seq<String>) -> Seq<usize>
    decreases names.len(),
{
    if names.len() == 0 {
        Seq::empty()
    } else {
        let front = invalid_positions(names.drop_last());
        if is_id_name(names.last()@) {
            front
        } else {
            front.push((names.len() - 1) as usize)
        }
    }
}

/// What a scan of a directory found: the identifiers of the files whose
/// names are identifiers, and the positions in the listing of those whose
/// names are not, for the operator to be told.
pub struct ScannedNames {
    pub ids: Vec<Id>,
    pub invalid: Vec<usize>,
}

/// Picks the identifiers out of a directory listing.  A name that is not 48
/// lowercase hexadecimal digits is set aside.
pub fn scan_names(names: &Vec<String>) -> (found: ScannedNames)
    ensures
        found.ids@ == parsed_names(names@),
        found.invalid@ == invalid_positions(names@),
{
    let mut ids: Vec<Id> = Vec::new();
    let mut invalid: Vec<usize> = Vec::new();
    let mut i: usize = 0;
    proof {
        assert(names@.take(0) =~= Seq::<String>::empty());
    }
    while i < names.len()
        invariant
            i <= names@.len(),
            ids@ == parsed_names(names@.take(i as int)),
            invalid@ == invalid_positions(names@.take(i as int)),
        decreases names@.len() - i,
    {
        proof {
            assert(names@.take(i + 1).drop_last() =~= names@.take(i as int));
            assert(names@.take(i + 1).last() == names@[i as int]);
        }
        match Id::parse(names[i].as_str()) {
            Some(id) => {
                proof {
                    assert(is_id_name(names@[i as int]@));
                    crate::data::lemma_parse_to_hex(
                        id,
                        names@[i as int]@,
                        id_named(names@[i as int]@),
                    );
                }
                ids.push(id);
            },
            None => {
                invalid.push(i);
            },
        }
        i = i + 1;
    }
    proof {
        assert(names@.take(i as int) =~= names@);
    }
    ScannedNames { ids, invalid }
}

/// The set of the identifiers in `ids`.
pub fn id_set(ids: &Vec<Id>) -> (set: IdSet)
    ensures
        set@ == ids@.to_set(),
{
    let mut set = IdSet::new();
    let mut i: usize = 0;
    while i < ids.len()
        invariant
            i <= ids@.len(),
            set@ == ids@.take(i as int).to_set(),
        decreases ids@.len() - i,
    {
        set.insert(ids[i]);
        proof {
            assert(ids@.take(i + 1) =~= ids@.take(i as int).push(ids@[i as int]));
            assert(ids@.take(i + 1).to_set() =~= ids@.take(i as int).to_set().insert(
                ids@[i as int],
            )) by {
                let a = ids@.take(i + 1);
                let b = ids@.take(i as int);
                assert forall|x: Id| a.to_set().contains(x) <==> b.to_set().insert(
                    ids@[i as int],
                ).contains(x) by {
                    if a.contains(x) {
                        let k = choose|k: int| 0 <= k < a.len() && a[k] == x;
                        if k < i {
                            assert(b[k] == x);
                        }
                    }
                    if b.contains(x) {
                        let k = choose|k: int| 0 <= k < b.len() && b[k] == x;
                        assert(a[k] == x);
                    }
                    assert(a[i as int] == ids@[i as int]);
                }
            }
        }
        i = i + 1;
    }
    proof {
        assert(ids@.take(i as int) =~= ids@);
    }
    set
}

/// The index files that were read, as results of reading each.
pub open spec fn loaded_indexes(results: Seq<Result<Vec<RawIndexEntry>, Error>>) -> Seq<
    Seq<IndexEntrySpec>,
>
    decreases results.len(),
{
    if results.len() == 0 {
        Seq::empty()
    } else {
        let front = loaded_indexes(results.drop_last());
        match results.last() {
            Ok(entries) => front.push(entries_view(entries@)),
            Err(_) => front,
        }
    }
}

/// How many of the results are failures.
pub open spec fn failed_count(results: Seq<Result<Vec<RawIndexEntry>, Error>>) -> nat
    decreases results.len(),
{
    if results.len() == 0 {
        0
    } else {
        failed_count(results.drop_last()) + if results.last() is Err {
            1nat
        } else {
            0nat
        }
    }
}

/// How a load of the index files went.
#[derive(Clone, Copy, Debug, PartialEq, Eq, Structural)]
pub struct LoadReport {
    /// Index files read and merged.
    pub loaded: u64,
    /// Index files that could not be read; they are left out.
    pub errors: u64,
}

impl LoadReport {
    /// What the operator is told where index files were left out.
    pub open spec fn text(self) -> Seq<char> {
        decimal_text(self.errors as nat) + " index files not loaded due to errors"@
    }

    /// What the operator is told of the load: nothing where every index
    /// file was read.
    pub fn message(&self) -> (message: Option<String>)
        ensures
            match message {
                Some(text) => self.errors > 0 && text@ == self.text(),
                None => self.errors == 0,
            },
    {
        if self.errors > 0 {
            let mut text = decimal(self.errors);
            text.append(" index files not loaded due to errors");
            Some(text)
        } else {
            None
        }
    }
}

/// The master index of an open repository, once it has been loaded.
pub struct IndexCache {
    entries: Option<IdMap<IndexEntry>>,
}

impl View for IndexCache {
    type V = Option<Map<ChunkId, IndexEntry>>;

    /// The master index, or `None` before the first load.
    closed spec fn view(&self) -> Option<Map<ChunkId, IndexEntry>> {
        match self.entries {
            Some(map) => Some(map@),
            None => None,
        }
    }
}

/// Inserts the listings of one entry.
fn absorb_entry(map: &mut IdMap<IndexEntry>, entry: &RawIndexEntry)
    ensures
        final(map)@ == merged(old(map)@, entry_listings(entry@)),
{
    let ghost listings = entry_listings(entry@);
    let mut k: usize = 0;
    proof {
        assert(listings.take(0) =~= Seq::<Listing>::empty());
    }
    while k < entry.chunks.len()
        invariant
            k <= entry.chunks@.len(),
            listings == entry_listings(entry@),
            map@ == merged(old(map)@, listings.take(k as int)),
        decreases entry.chunks@.len() - k,
    {
        let record = entry.chunks[k];
        map.insert(record.chunk_id, IndexEntry::new(entry.bundle_id, record.size as u64));
        proof {
            assert(listings.take(k + 1).drop_last() =~= listings.take(k as int));
            assert(listings.take(k + 1).last() == listing_of(entry.bundle_id, record));
        }
        k = k + 1;
    }
    proof {
        assert(listings.take(k as int) =~= listings);
    }
}

/// Inserts the listings of one index file, leaving out the entries of
/// bundles that do not exist.
pub fn absorb_index(map: &mut IdMap<IndexEntry>, entries: &Vec<RawIndexEntry>, bundles: &IdSet)
    ensures
        final(map)@ == merged(old(map)@, index_listings(entries_view(entries@), bundles@)),
{
    let ghost all = entries_view(entries@);
    let mut i: usize = 0;
    proof {
        assert(all.take(0) =~= Seq::<IndexEntrySpec>::empty());
    }
    while i < entries.len()
        invariant
            i <= entries@.len(),
            all == entries_view(entries@),
            map@ == merged(old(map)@, index_listings(all.take(i as int), bundles@)),
        decreases entries@.len() - i,
    {
        proof {
            assert(all.take(i + 1).drop_last() =~= all.take(i as int));
            assert(all.take(i + 1).last() == entries@[i as int]@);
            lemma_merged_concat(
                old(map)@,
                index_listings(all.take(i as int), bundles@),
                entry_listings(entries@[i as int]@),
            );
            assert(index_listings(all.take(i as int), bundles@) + Seq::<Listing>::empty()
                =~= index_listings(all.take(i as int), bundles@));
        }
        if bundles.contains(&entries[i].bundle_id) {
            absorb_entry(map, &entries[i]);
        }
        i = i + 1;
    }
    proof {
        assert(all.take(i as int) =~= all);
    }
}

impl IndexCache {
    /// A cache that has not been loaded.
    pub fn new() -> (cache: IndexCache)
        ensures
            cache@ is None,
    {
        IndexCache { entries: None }
    }

    /// Whether the master index has been loaded.
    pub fn loaded(&self) -> (loaded: bool)
        ensures
            loaded == (self@ is Some),
    {
        self.entries.is_some()
    }

    /// Where `chunk_id` is to be found, if it is indexed.
    pub fn get(&self, chunk_id: &ChunkId) -> (entry: Option<IndexEntry>)
        requires
            self@ is Some,
        ensures
            match entry {
                Some(found) => self@->0.contains_key(*chunk_id) && self@->0[*chunk_id] == found,
                None => !self@->0.contains_key(*chunk_id),
            },
    {
        match &self.entries {
            Some(map) => match map.get(chunk_id) {
                Some(found) => Some(*found),
                None => None,
            },
            None => None,
        }
    }

    /// Whether `chunk_id` is indexed.
    pub fn has_chunk(&self, chunk_id: &ChunkId) -> (present: bool)
        requires
            self@ is Some,
        ensures
            present == self@->0.contains_key(*chunk_id),
    {
        match &self.entries {
            Some(map) => map.contains_key(chunk_id),
            None => false,
        }
    }

    /// Builds the master index anew from the index files that were read, in
    /// the order given.  A file that could not be read is counted and left
    /// out; the load does not fail on it.
    ///
    /// The new map takes the old one's place only when it is complete.
    pub fn reload(
        &mut self,
        results: &Vec<Result<Vec<RawIndexEntry>, Error>>,
        bundles: &IdSet,
    ) -> (report: LoadReport)
        requires
            results@.len() <= u64::MAX,
        ensures
            final(self)@ == Some(master_index(loaded_indexes(results@), bundles@)),
            report.errors == failed_count(results@),
            report.loaded + report.errors == results@.len(),
    {
        let mut map: IdMap<IndexEntry> = IdMap::new();
        let mut loaded: u64 = 0;
        let mut errors: u64 = 0;
        let mut i: usize = 0;
        proof {
            assert(results@.take(0) =~= Seq::<Result<Vec<RawIndexEntry>, Error>>::empty());
        }
        while i < results.len()
            invariant
                i <= results@.len() <= u64::MAX,
                map@ == master_index(loaded_indexes(results@.take(i as int)), bundles@),
                errors == failed_count(results@.take(i as int)),
                loaded + errors == i,
            decreases results@.len() - i,
        {
            let ghost before = loaded_indexes(results@.take(i as int));
            proof {
                assert(results@.take(i + 1).drop_last() =~= results@.take(i as int));
                assert(results@.take(i + 1).last() == results@[i as int]);
            }
            match &results[i] {
                Ok(entries) => {
                    absorb_index(&mut map, entries, bundles);
                    proof {
                        let after = before.push(entries_view(entries@));
                        assert(after.drop_last() =~= before);
                        lemma_merged_concat(
                            Map::empty(),
                            all_listings(before, bundles@),
                            index_listings(entries_view(entries@), bundles@),
                        );
                    }
                    loaded = loaded + 1;
                },
                Err(_) => {
                    errors = errors + 1;
                },
            }
            i = i + 1;
        }
        proof {
            assert(results@.take(i as int) =~= results@);
        }
        self.entries = Some(map);
        LoadReport { loaded, errors }
    }

    /// Loads the master index unless it is loaded already.
    pub fn load_if_not_loaded(
        &mut self,
        results: &Vec<Result<Vec<RawIndexEntry>, Error>>,
        bundles: &IdSet,
    ) -> (report: Option<LoadReport>)
        requires
            results@.len() <= u64::MAX,
        ensures
            old(self)@ is Some ==> report is None && final(self)@ == old(self)@,
            old(self)@ is None ==> report is Some && final(self)@ == Some(
                master_index(loaded_indexes(results@), bundles@),
            ) && report->0.errors == failed_count(results@) && report->0.loaded
                + report->0.errors == results@.len(),
    {
        if self.entries.is_some() {
            None
        } else {
            Some(self.reload(results, bundles))
        }
    }
}

/// Whether the entry lists `listing`: holds a record of the chunk, with
/// the size, under the bundle.
pub open spec fn in_entry(entry: IndexEntrySpec, listing: Listing) -> bool {
    exists|k: int|
        0 <= k < entry.chunks.len() && #[trigger] listing_of(entry.bundle_id, entry.chunks[k])
            == listing
}

/// Whether an index file lists `listing` under a bundle that exists.
pub open spec fn in_index(entries: Seq<IndexEntrySpec>, bundles: Set<BundleId>, listing: Listing)
    -> bool {
    exists|j: int|
        0 <= j < entries.len() && bundles.contains(entries[j].bundle_id) && in_entry(
            #[trigger] entries[j],
            listing,
        )
}

/// Whether some index file lists `listing` under a bundle that exists.
pub open spec fn in_files(
    indexes: Seq<Seq<IndexEntrySpec>>,
    bundles: Set<BundleId>,
    listing: Listing,
) -> bool {
    exists|i: int| 0 <= i < indexes.len() && in_index(#[trigger] indexes[i], bundles, listing)
}

proof fn lemma_concat_contains<T>(a: Seq<T>, b: Seq<T>, x: T)
    ensures
        (a + b).contains(x) <==> a.contains(x) || b.contains(x),
{
    let whole = a + b;
    if whole.contains(x) {
        let k = choose|k: int| 0 <= k < whole.len() && whole[k] == x;
        if k < a.len() {
            assert(a[k] == x);
        } else {
            assert(b[k - a.len()] == x);
        }
    }
    if a.contains(x) {
        let k = choose|k: int| 0 <= k < a.len() && a[k] == x;
        assert(whole[k] == x);
    }
    if b.contains(x) {
        let k = choose|k: int| 0 <= k < b.len() && b[k] == x;
        assert(whole[a.len() + k] == x);
    }
}

proof fn lemma_entry_listings_contains(entry: IndexEntrySpec, listing: Listing)
    ensures
        entry_listings(entry).contains(listing) <==> in_entry(entry, listing),
{
    let all = entry_listings(entry);
    if all.contains(listing) {
        let k = choose|k: int| 0 <= k < all.len() && all[k] == listing;
        assert(listing_of(entry.bundle_id, entry.chunks[k]) == listing);
    }
    if in_entry(entry, listing) {
        let k = choose|k: int|
            0 <= k < entry.chunks.len() && #[trigger] listing_of(entry.bundle_id, entry.chunks[k])
                == listing;
        assert(all[k] == listing);
    }
}

proof fn lemma_index_listings_contains(
    entries: Seq<IndexEntrySpec>,
    bundles: Set<BundleId>,
    listing: Listing,
)
    ensures
        index_listings(entries, bundles).contains(listing) <==> in_index(entries, bundles, listing),
    decreases entries.len(),
{
    if entries.len() > 0 {
        let front = entries.drop_last();
        let last = entries.last();
        let none = Seq::<Listing>::empty();
        let added = if bundles.contains(last.bundle_id) {
            entry_listings(last)
        } else {
            none
        };
        lemma_index_listings_contains(front, bundles, listing);
        lemma_concat_contains(index_listings(front, bundles), added, listing);
        lemma_entry_listings_contains(last, listing);
        if in_index(front, bundles, listing) {
            let j = choose|j: int|
                0 <= j < front.len() && bundles.contains(front[j].bundle_id) && in_entry(
                    #[trigger] front[j],
                    listing,
                );
            assert(entries[j] == front[j]);
        }
        if in_index(entries, bundles, listing) {
            let j = choose|j: int|
                0 <= j < entries.len() && bundles.contains(entries[j].bundle_id) && in_entry(
                    #[trigger] entries[j],
                    listing,
                );
            if j < front.len() {
                assert(front[j] == entries[j]);
            }
        }
        if added.contains(listing) {
            assert(entries[entries.len() - 1] == last);
        }
    }
}

proof fn lemma_all_listings_contains(
    indexes: Seq<Seq<IndexEntrySpec>>,
    bundles: Set<BundleId>,
    listing: Listing,
)
    ensures
        all_listings(indexes, bundles).contains(listing) <==> in_files(indexes, bundles, listing),
    decreases indexes.len(),
{
    if indexes.len() > 0 {
        let front = indexes.drop_last();
        lemma_all_listings_contains(front, bundles, listing);
        lemma_concat_contains(
            all_listings(front, bundles),
            index_listings(indexes.last(), bundles),
            listing,
        );
        lemma_index_listings_contains(indexes.last(), bundles, listing);
        if in_files(front, bundles, listing) {
            let i = choose|i: int|
                0 <= i < front.len() && in_index(#[trigger] front[i], bundles, listing);
            assert(indexes[i] == front[i]);
        }
        if in_files(indexes, bundles, listing) {
            let i = choose|i: int|
                0 <= i < indexes.len() && in_index(#[trigger] indexes[i], bundles, listing);
            if i < front.len() {
                assert(front[i] == indexes[i]);
            }
        }
        if in_index(indexes.last(), bundles, listing) {
            assert(indexes[indexes.len() - 1] == indexes.last());
        }
    }
}

proof fn lemma_merged_value_listed(listings: Seq<Listing>, chunk_id: ChunkId)
    ensures
        merged(Map::empty(), listings).contains_key(chunk_id) ==> listings.contains(
            (chunk_id, merged(Map::empty(), listings)[chunk_id]),
        ),
    decreases listings.len(),
{
    if listings.len() > 0 {
        let front = listings.drop_last();
        let last = listings.last();
        lemma_merged_value_listed(front, chunk_id);
        assert(listings[listings.len() - 1] == last);
        if last.0 == chunk_id {
            assert(last == (chunk_id, last.1));
        } else if merged(Map::empty(), front).contains_key(chunk_id) {
            let e = merged(Map::empty(), front)[chunk_id];
            let k = choose|k: int| 0 <= k < front.len() && front[k] == (chunk_id, e);
            assert(listings[k] == (chunk_id, e));
        }
    }
}

/// The master index has a chunk exactly if some index file lists it under
/// a bundle that exists, and what it has for the chunk is one of its
/// listings.
pub proof fn lemma_master_index_is_listed(
    indexes: Seq<Seq<IndexEntrySpec>>,
    bundles: Set<BundleId>,
    chunk_id: ChunkId,
)
    ensures
        forall|entry: IndexEntry| #[trigger]
            in_files(indexes, bundles, (chunk_id, entry)) ==> master_index(
                indexes,
                bundles,
            ).contains_key(chunk_id),
        master_index(indexes, bundles).contains_key(chunk_id) ==> in_files(
            indexes,
            bundles,
            (chunk_id, master_index(indexes, bundles)[chunk_id]),
        ),
{
    let listings = all_listings(indexes, bundles);
    lemma_merged_value_listed(listings, chunk_id);
    lemma_merged_lookup(Map::empty(), listings, chunk_id);
    if master_index(indexes, bundles).contains_key(chunk_id) {
        let e = master_index(indexes, bundles)[chunk_id];
        lemma_all_listings_contains(indexes, bundles, (chunk_id, e));
    }
    assert forall|entry: IndexEntry| #[trigger]
        in_files(indexes, bundles, (chunk_id, entry)) implies master_index(
        indexes,
        bundles,
    ).contains_key(chunk_id) by {
        lemma_all_listings_contains(indexes, bundles, (chunk_id, entry));
        let k = choose|k: int| 0 <= k < listings.len() && listings[k] == (chunk_id, entry);
        assert(listings[k].0 == chunk_id);
    }
}

} // verus!
