//! Dropping from the index files the chunks that no backup refers to.

use crate::balance_indexes::{holds_index, holds_runs, IndexRewrite, NewIndex};
use crate::data::{BundleId, ChunkId, IndexId};
use crate::idmap::IdSet;
use crate::index_cache::{
    all_listings, entry_listings, in_entry, in_files, in_index, index_listings,
    lemma_master_index_is_listed, lemma_merged_concat, listing_of, master_index, merged,
    IndexEntry, Listing,
};
use crate::index_file::{entries_view, write_index, IndexEntrySpec, RawIndexEntry};
use crate::random::random_id;
use crate::records::ChunkRecord;
use crate::text::{append_decimal, decimal_text};
use vstd::prelude::*;

verus! {

/// The records among `chunks` whose chunk is in `live`, in order.
pub open spec fn live_chunks(chunks: Seq<ChunkRecord>, live: Set<ChunkId>) -> Seq<ChunkRecord>
    decreases chunks.len(),
{
    if chunks.len() == 0 {
        Seq::empty()
    } else {
        let front = live_chunks(chunks.drop_last(), live);
        if live.contains(chunks.last().chunk_id) {
            front.push(chunks.last())
        } else {
            front
        }
    }
}

/// Whether every chunk that the entries list is in `live`.
pub open spec fn all_live(entries: Seq<IndexEntrySpec>, live: Set<ChunkId>) -> bool {
    forall|j: int, k: int|
        0 <= j < entries.len() && 0 <= k < entries[j].chunks.len() ==> live.contains(
            (#[trigger] entries[j].chunks[k]).chunk_id,
        )
}

/// The entries cut down to the chunks in `live`; an entry that keeps no
/// chunk is left out altogether.
pub open spec fn gc_entries(entries: Seq<IndexEntrySpec>, live: Set<ChunkId>) -> Seq<IndexEntrySpec>
    decreases entries.len(),
{
    if entries.len() == 0 {
        Seq::empty()
    } else {
        let front = gc_entries(entries.drop_last(), live);
        let kept = live_chunks(entries.last().chunks, live);
        if kept.len() == 0 {
            front
        } else {
            front.push(IndexEntrySpec { bundle_id: entries.last().bundle_id, chunks: kept })
        }
    }
}

/// How many chunk records of the entries are not in `live`.
pub open spec fn dead_count(entries: Seq<IndexEntrySpec>, live: Set<ChunkId>) -> nat
    decreases entries.len(),
{
    if entries.len() == 0 {
        0
    } else {
        dead_count(entries.drop_last(), live) + (entries.last().chunks.len() - live_chunks(
            entries.last().chunks,
            live,
        ).len()) as nat
    }
}

/// The kept records are no more than there were.
pub proof fn lemma_live_chunks_len(chunks: Seq<ChunkRecord>, live: Set<ChunkId>)
    ensures
        live_chunks(chunks, live).len() <= chunks.len(),
        live_chunks(chunks, live).len() == chunks.len() <==> forall|k: int|
            0 <= k < chunks.len() ==> live.contains((#[trigger] chunks[k]).chunk_id),
        live_chunks(chunks, live).len() == chunks.len() ==> live_chunks(chunks, live) == chunks,
    decreases chunks.len(),
{
    if chunks.len() > 0 {
        let front = chunks.drop_last();
        lemma_live_chunks_len(front, live);
        if live_chunks(chunks, live).len() == chunks.len() {
            assert forall|k: int| 0 <= k < chunks.len() implies live.contains(
                (#[trigger] chunks[k]).chunk_id,
            ) by {
                if k < front.len() {
                    assert(front[k] == chunks[k]);
                }
            }
            assert(live_chunks(chunks, live) =~= chunks);
        }
        if forall|k: int| 0 <= k < chunks.len() ==> live.contains((#[trigger] chunks[k]).chunk_id) {
            assert forall|k: int| 0 <= k < front.len() implies live.contains(
                (#[trigger] front[k]).chunk_id,
            ) by {
                assert(front[k] == chunks[k]);
            }
            assert(live.contains(chunks[chunks.len() - 1].chunk_id));
        }
    } else {
        assert(live_chunks(chunks, live) =~= chunks);
    }
}

/// The number capped at the largest that a counter can show.
pub open spec fn saturated(n: nat) -> u64 {
    if n > u64::MAX {
        u64::MAX
    } else {
        n as u64
    }
}

/// Cuts a run of chunk records down to those in `live`.
pub fn keep_live_chunks(chunks: &Vec<ChunkRecord>, live: &IdSet) -> (kept: Vec<ChunkRecord>)
    ensures
        kept@ == live_chunks(chunks@, live@),
{
    let mut kept: Vec<ChunkRecord> = Vec::new();
    let mut k: usize = 0;
    proof {
        assert(chunks@.take(0) =~= Seq::<ChunkRecord>::empty());
    }
    while k < chunks.len()
        invariant
            k <= chunks@.len(),
            kept@ == live_chunks(chunks@.take(k as int), live@),
        decreases chunks@.len() - k,
    {
        proof {
            assert(chunks@.take(k + 1).drop_last() =~= chunks@.take(k as int));
            assert(chunks@.take(k + 1).last() == chunks@[k as int]);
        }
        if live.contains(&chunks[k].chunk_id) {
            kept.push(chunks[k]);
        }
        k = k + 1;
    }
    proof {
        assert(chunks@.take(k as int) =~= chunks@);
    }
    kept
}

/// What is to become of one index file.
#[derive(Clone, Debug, PartialEq, Eq)]
pub enum IndexVerdict {
    /// Every chunk it lists is referred to: the file stays as it is.
    Keep,
    /// Some chunk it lists is not referred to: the file goes, and these
    /// entries are written to a new file, unless there are none.
    Rewrite(Vec<RawIndexEntry>),
}

/// Decides what is to become of one index file, and counts the chunk
/// records that go.
pub fn gc_index(entries: &Vec<RawIndexEntry>, live: &IdSet) -> (verdict: (IndexVerdict, u64))
    ensures
        match verdict.0 {
            IndexVerdict::Keep => all_live(entries_view(entries@), live@) && verdict.1 == 0,
            IndexVerdict::Rewrite(kept) => !all_live(entries_view(entries@), live@) && entries_view(
                kept@,
            ) == gc_entries(entries_view(entries@), live@) && verdict.1 == saturated(
                dead_count(entries_view(entries@), live@),
            ),
        },
{
    let ghost all = entries_view(entries@);
    let mut kept_entries: Vec<RawIndexEntry> = Vec::new();
    let mut removed: u64 = 0;
    let mut any_dead = false;
    let mut j: usize = 0;
    proof {
        assert(all.take(0) =~= Seq::<IndexEntrySpec>::empty());
        assert(entries_view(kept_entries@) =~= Seq::<IndexEntrySpec>::empty());
    }
    while j < entries.len()
        invariant
            j <= entries@.len(),
            all == entries_view(entries@),
            entries_view(kept_entries@) == gc_entries(all.take(j as int), live@),
            removed == saturated(dead_count(all.take(j as int), live@)),
            any_dead == !all_live(all.take(j as int), live@),
        decreases entries@.len() - j,
    {
        let ghost before = all.take(j as int);
        let ghost done = entries_view(kept_entries@);
        let entry = &entries[j];
        let kept = keep_live_chunks(&entry.chunks, live);
        proof {
            lemma_live_chunks_len(entry.chunks@, live@);
        }
        let dead = entry.chunks.len() - kept.len();
        proof {
            assert(all.take(j + 1).drop_last() =~= before);
            assert(all.take(j + 1).last() == entries@[j as int]@);
            lemma_live_chunks_len(entry.chunks@, live@);
            lemma_all_live_push(before, entries@[j as int]@, live@);
            assert(all.take(j + 1) =~= before.push(entries@[j as int]@));
        }
        if dead > 0 {
            any_dead = true;
        }
        removed = removed.saturating_add(dead as u64);
        if kept.len() > 0 {
            let fresh = RawIndexEntry { bundle_id: entry.bundle_id, chunks: kept };
            let ghost shown = fresh@;
            kept_entries.push(fresh);
            proof {
                assert(entries_view(kept_entries@) =~= done.push(shown));
            }
        }
        j = j + 1;
    }
    proof {
        assert(all.take(j as int) =~= all);
    }
    if any_dead {
        (IndexVerdict::Rewrite(kept_entries), removed)
    } else {
        proof {
            lemma_all_live_dead_count(all, live@);
        }
        (IndexVerdict::Keep, 0)
    }
}

/// Entries are all live exactly if those before the last are and the last
/// keeps all its chunks.
pub proof fn lemma_all_live_push(front: Seq<IndexEntrySpec>, last: IndexEntrySpec, live: Set<ChunkId>)
    ensures
        all_live(front.push(last), live) <==> all_live(front, live) && forall|k: int|
            0 <= k < last.chunks.len() ==> live.contains((#[trigger] last.chunks[k]).chunk_id),
{
    let whole = front.push(last);
    if all_live(whole, live) {
        assert forall|j: int, k: int|
            0 <= j < front.len() && 0 <= k < front[j].chunks.len() implies live.contains(
            (#[trigger] front[j].chunks[k]).chunk_id,
        ) by {
            assert(whole[j] == front[j]);
            assert(live.contains(whole[j].chunks[k].chunk_id));
        }
        assert forall|k: int| 0 <= k < last.chunks.len() implies live.contains(
            (#[trigger] last.chunks[k]).chunk_id,
        ) by {
            assert(whole[front.len() as int] == last);
            assert(live.contains(whole[front.len() as int].chunks[k].chunk_id));
        }
    }
    if all_live(front, live) && forall|k: int|
        0 <= k < last.chunks.len() ==> live.contains((#[trigger] last.chunks[k]).chunk_id) {
        assert forall|j: int, k: int|
            0 <= j < whole.len() && 0 <= k < whole[j].chunks.len() implies live.contains(
            (#[trigger] whole[j].chunks[k]).chunk_id,
        ) by {
            if j < front.len() {
                assert(whole[j] == front[j]);
                assert(live.contains(front[j].chunks[k].chunk_id));
            } else {
                assert(whole[j] == last);
                assert(live.contains(last.chunks[k].chunk_id));
            }
        }
    }
}

/// Where all chunks are live none is counted as dead.
pub proof fn lemma_all_live_dead_count(entries: Seq<IndexEntrySpec>, live: Set<ChunkId>)
    requires
        all_live(entries, live),
    ensures
        dead_count(entries, live) == 0,
    decreases entries.len(),
{
    if entries.len() > 0 {
        let front = entries.drop_last();
        assert(front.push(entries.last()) =~= entries);
        lemma_all_live_push(front, entries.last(), live);
        lemma_all_live_dead_count(front, live);
        lemma_live_chunks_len(entries.last().chunks, live);
    }
}

/// An index file as it was read: its name and its entries.
#[derive(Clone, Debug, PartialEq, Eq)]
pub struct LoadedIndex {
    pub index_id: IndexId,
    pub entries: Vec<RawIndexEntry>,
}

/// The entries of each of the index files.
pub open spec fn loaded_views(indexes: Seq<LoadedIndex>) -> Seq<Seq<IndexEntrySpec>> {
    indexes.map_values(|index: LoadedIndex| entries_view(index.entries@))
}

/// The names of the index files that list some chunk not in `live`, in
/// order: these files go.
pub open spec fn gc_deleted(indexes: Seq<LoadedIndex>, live: Set<ChunkId>) -> Seq<IndexId>
    decreases indexes.len(),
{
    if indexes.len() == 0 {
        Seq::empty()
    } else {
        let front = gc_deleted(indexes.drop_last(), live);
        if all_live(entries_view(indexes.last().entries@), live) {
            front
        } else {
            front.push(indexes.last().index_id)
        }
    }
}

/// The contents of the new index files, in order: for each file that goes,
/// its entries cut down to `live`, unless none is left.
pub open spec fn gc_created(indexes: Seq<Seq<IndexEntrySpec>>, live: Set<ChunkId>) -> Seq<
    Seq<IndexEntrySpec>,
>
    decreases indexes.len(),
{
    if indexes.len() == 0 {
        Seq::empty()
    } else {
        let front = gc_created(indexes.drop_last(), live);
        if all_live(indexes.last(), live) || gc_entries(indexes.last(), live).len() == 0 {
            front
        } else {
            front.push(gc_entries(indexes.last(), live))
        }
    }
}

/// How many chunk records go, over all the index files that are rewritten.
pub open spec fn gc_removed(indexes: Seq<Seq<IndexEntrySpec>>, live: Set<ChunkId>) -> nat
    decreases indexes.len(),
{
    if indexes.len() == 0 {
        0
    } else {
        gc_removed(indexes.drop_last(), live) + dead_count(indexes.last(), live)
    }
}

/// The counts that the operator is told.
#[derive(Clone, Copy, Debug, PartialEq, Eq, Structural)]
pub struct GcIndexesReport {
    /// Chunk records dropped.
    pub chunks_removed: u64,
    /// Index files replaced by a smaller one.
    pub indexes_modified: u64,
    /// Index files dropped without replacement.
    pub indexes_removed: u64,
}

impl GcIndexesReport {
    /// The report in words.
    pub open spec fn text(self) -> Seq<char> {
        "Removed "@ + decimal_text(self.chunks_removed as nat) + " chunks from "@ + decimal_text(
            self.indexes_modified as nat,
        ) + " modified and "@ + decimal_text(self.indexes_removed as nat) + " deleted indexes"@
    }

    /// The report in words, for the operator.
    pub fn message(&self) -> (message: String)
        ensures
            message@ == self.text(),
    {
        let mut message = String::from_str("Removed ");
        append_decimal(&mut message, self.chunks_removed);
        message.append(" chunks from ");
        append_decimal(&mut message, self.indexes_modified);
        message.append(" modified and ");
        append_decimal(&mut message, self.indexes_removed);
        message.append(" deleted indexes");
        message
    }
}

/// What a garbage collection of the index files comes to.
#[derive(Clone, Debug, PartialEq, Eq)]
pub struct GcIndexesOutcome {
    pub plan: IndexRewrite,
    pub report: GcIndexesReport,
}

/// Collects the garbage of the index files.
///
/// An index file all of whose chunks are in `backup_chunk_ids` stays as it
/// is.  Every other goes, and its entries, cut down to the chunks in
/// `backup_chunk_ids`, are written to a new file under a fresh name; an
/// entry that keeps no chunk is left out, and where no entry is left no new
/// file is written.
pub fn gc_indexes(old_indexes: &Vec<LoadedIndex>, backup_chunk_ids: &IdSet, encrypted: bool) -> (outcome:
    GcIndexesOutcome)
    ensures
        outcome.plan.deleted@ == gc_deleted(old_indexes@, backup_chunk_ids@),
        holds_runs(
            outcome.plan.created@,
            encrypted,
            gc_created(loaded_views(old_indexes@), backup_chunk_ids@),
        ),
        outcome.report.chunks_removed == saturated(
            gc_removed(loaded_views(old_indexes@), backup_chunk_ids@),
        ),
        outcome.report.indexes_modified == saturated(outcome.plan.created@.len()),
        outcome.report.indexes_removed == saturated(
            (outcome.plan.deleted@.len() - outcome.plan.created@.len()) as nat,
        ),
        outcome.plan.created@.len() <= outcome.plan.deleted@.len(),
{
    let ghost live = backup_chunk_ids@;
    let ghost views = loaded_views(old_indexes@);
    let mut created: Vec<NewIndex> = Vec::new();
    let mut deleted: Vec<IndexId> = Vec::new();
    let mut chunks_removed: u64 = 0;
    let mut indexes_modified: u64 = 0;
    let mut indexes_removed: u64 = 0;
    let mut i: usize = 0;
    proof {
        assert(old_indexes@.take(0) =~= Seq::<LoadedIndex>::empty());
        assert(views.take(0) =~= Seq::<Seq<IndexEntrySpec>>::empty());
    }
    while i < old_indexes.len()
        invariant
            i <= old_indexes@.len(),
            live == backup_chunk_ids@,
            views == loaded_views(old_indexes@),
            deleted@ == gc_deleted(old_indexes@.take(i as int), live),
            holds_runs(created@, encrypted, gc_created(views.take(i as int), live)),
            chunks_removed == saturated(gc_removed(views.take(i as int), live)),
            created@.len() <= deleted@.len(),
            indexes_modified == saturated(created@.len()),
            indexes_removed == saturated((deleted@.len() - created@.len()) as nat),
        decreases old_indexes@.len() - i,
    {
        let ghost runs = gc_created(views.take(i as int), live);
        proof {
            assert(old_indexes@.take(i + 1).drop_last() =~= old_indexes@.take(i as int));
            assert(old_indexes@.take(i + 1).last() == old_indexes@[i as int]);
            assert(views.take(i + 1).drop_last() =~= views.take(i as int));
            assert(views.take(i + 1).last() == entries_view(old_indexes@[i as int].entries@));
        }
        let index = &old_indexes[i];
        let (verdict, removed) = gc_index(&index.entries, backup_chunk_ids);
        match verdict {
            IndexVerdict::Keep => {
                proof {
                    lemma_all_live_dead_count(entries_view(index.entries@), live);
                }
            },
            IndexVerdict::Rewrite(kept) => {
                deleted.push(index.index_id);
                chunks_removed = chunks_removed.saturating_add(removed);
                if kept.len() > 0 {
                    let index_id = random_id();
                    let stream = write_index(encrypted, &kept);
                    created.push(NewIndex { index_id, stream });
                    indexes_modified = indexes_modified.saturating_add(1);
                    proof {
                        let fresh = gc_entries(entries_view(index.entries@), live);
                        assert forall|k: int| 0 <= k < created@.len() implies holds_index(
                            (#[trigger] created@[k]).stream@,
                            encrypted,
                            runs.push(fresh)[k],
                        ) by {
                            if k < runs.len() {
                                assert(runs.push(fresh)[k] == runs[k]);
                            }
                        }
                    }
                } else {
                    indexes_removed = indexes_removed.saturating_add(1);
                }
            },
        }
        i = i + 1;
    }
    proof {
        assert(old_indexes@.take(i as int) =~= old_indexes@);
        assert(views.take(i as int) =~= views);
    }
    GcIndexesOutcome {
        plan: IndexRewrite { created, deleted },
        report: GcIndexesReport { chunks_removed, indexes_modified, indexes_removed },
    }
}

/// The index files after the run, each in the place of the file it came
/// from: a file all of whose chunks are live is unchanged, every other holds
/// its entries cut down to the live chunks, which may be none.
pub open spec fn gc_result(indexes: Seq<Seq<IndexEntrySpec>>, live: Set<ChunkId>) -> Seq<
    Seq<IndexEntrySpec>,
> {
    indexes.map_values(
        |index: Seq<IndexEntrySpec>|
            if all_live(index, live) {
                index
            } else {
                gc_entries(index, live)
            },
    )
}

/// Whether two maps say the same of every chunk in `live`.
pub open spec fn agree_on(
    a: Map<ChunkId, IndexEntry>,
    b: Map<ChunkId, IndexEntry>,
    live: Set<ChunkId>,
) -> bool {
    forall|chunk_id: ChunkId| #[trigger]
        live.contains(chunk_id) ==> (a.contains_key(chunk_id) <==> b.contains_key(chunk_id)) && (
        a.contains_key(chunk_id) ==> a[chunk_id] == b[chunk_id])
}

proof fn lemma_same_listings_agree(
    a: Map<ChunkId, IndexEntry>,
    b: Map<ChunkId, IndexEntry>,
    listings: Seq<Listing>,
    live: Set<ChunkId>,
)
    requires
        agree_on(a, b, live),
    ensures
        agree_on(merged(a, listings), merged(b, listings), live),
    decreases listings.len(),
{
    if listings.len() > 0 {
        lemma_same_listings_agree(a, b, listings.drop_last(), live);
    }
}

proof fn lemma_gc_chunks_agree(
    a: Map<ChunkId, IndexEntry>,
    b: Map<ChunkId, IndexEntry>,
    bundle_id: BundleId,
    chunks: Seq<ChunkRecord>,
    live: Set<ChunkId>,
)
    requires
        agree_on(a, b, live),
    ensures
        agree_on(
            merged(a, entry_listings(IndexEntrySpec { bundle_id, chunks: live_chunks(chunks, live) })),
            merged(b, entry_listings(IndexEntrySpec { bundle_id, chunks })),
            live,
        ),
    decreases chunks.len(),
{
    let cut = IndexEntrySpec { bundle_id, chunks: live_chunks(chunks, live) };
    let whole = IndexEntrySpec { bundle_id, chunks };
    if chunks.len() > 0 {
        let front = chunks.drop_last();
        let last = chunks.last();
        let cut_front = IndexEntrySpec { bundle_id, chunks: live_chunks(front, live) };
        let whole_front = IndexEntrySpec { bundle_id, chunks: front };
        lemma_gc_chunks_agree(a, b, bundle_id, front, live);
        assert(entry_listings(whole).drop_last() =~= entry_listings(whole_front));
        assert(entry_listings(whole).last() == listing_of(bundle_id, last));
        if live.contains(last.chunk_id) {
            assert(entry_listings(cut).drop_last() =~= entry_listings(cut_front));
            assert(entry_listings(cut).last() == listing_of(bundle_id, last));
        }
    }
}

proof fn lemma_gc_entries_agree(
    a: Map<ChunkId, IndexEntry>,
    b: Map<ChunkId, IndexEntry>,
    entries: Seq<IndexEntrySpec>,
    bundles: Set<BundleId>,
    live: Set<ChunkId>,
)
    requires
        agree_on(a, b, live),
    ensures
        agree_on(
            merged(a, index_listings(gc_entries(entries, live), bundles)),
            merged(b, index_listings(entries, bundles)),
            live,
        ),
    decreases entries.len(),
{
    if entries.len() > 0 {
        let front = entries.drop_last();
        let last = entries.last();
        let kept = live_chunks(last.chunks, live);
        let cut = IndexEntrySpec { bundle_id: last.bundle_id, chunks: kept };
        lemma_gc_entries_agree(a, b, front, bundles, live);
        let a1 = merged(a, index_listings(gc_entries(front, live), bundles));
        let b1 = merged(b, index_listings(front, bundles));
        let none = Seq::<Listing>::empty();
        let added = if bundles.contains(last.bundle_id) {
            entry_listings(last)
        } else {
            none
        };
        lemma_merged_concat(b, index_listings(front, bundles), added);
        if kept.len() == 0 {
            if bundles.contains(last.bundle_id) {
                lemma_gc_chunks_agree(a1, b1, last.bundle_id, last.chunks, live);
                assert(entry_listings(cut) =~= none);
            }
        } else {
            let pushed = gc_entries(front, live).push(cut);
            assert(pushed.drop_last() =~= gc_entries(front, live));
            assert(pushed.last() == cut);
            let added_cut = if bundles.contains(last.bundle_id) {
                entry_listings(cut)
            } else {
                none
            };
            lemma_merged_concat(a, index_listings(gc_entries(front, live), bundles), added_cut);
            if bundles.contains(last.bundle_id) {
                lemma_gc_chunks_agree(a1, b1, last.bundle_id, last.chunks, live);
            }
        }
    }
}

proof fn lemma_gc_result_agree(
    indexes: Seq<Seq<IndexEntrySpec>>,
    bundles: Set<BundleId>,
    live: Set<ChunkId>,
)
    ensures
        agree_on(
            master_index(gc_result(indexes, live), bundles),
            master_index(indexes, bundles),
            live,
        ),
    decreases indexes.len(),
{
    let after = gc_result(indexes, live);
    if indexes.len() == 0 {
        assert(after =~= Seq::<Seq<IndexEntrySpec>>::empty());
    } else {
        let front = indexes.drop_last();
        let last = indexes.last();
        lemma_gc_result_agree(front, bundles, live);
        assert(after.drop_last() =~= gc_result(front, live));
        let a = master_index(gc_result(front, live), bundles);
        let b = master_index(front, bundles);
        lemma_merged_concat(
            Map::empty(),
            all_listings(gc_result(front, live), bundles),
            index_listings(after.last(), bundles),
        );
        lemma_merged_concat(
            Map::empty(),
            all_listings(front, bundles),
            index_listings(last, bundles),
        );
        if all_live(last, live) {
            lemma_same_listings_agree(a, b, index_listings(last, bundles), live);
        } else {
            lemma_gc_entries_agree(a, b, last, bundles, live);
        }
    }
}

/// Garbage collection of the index files keeps every live chunk: a chunk
/// that some backup refers to is in the master index after the run exactly
/// if it was before, and with the same bundle and size.  The master index
/// after the run is taken with each new file read in the place of the file
/// it came from.
pub proof fn lemma_gc_indexes_preserves_live(
    indexes: Seq<Seq<IndexEntrySpec>>,
    bundles: Set<BundleId>,
    live: Set<ChunkId>,
    chunk_id: ChunkId,
)
    requires
        live.contains(chunk_id),
    ensures
        master_index(gc_result(indexes, live), bundles).contains_key(chunk_id) == master_index(
            indexes,
            bundles,
        ).contains_key(chunk_id),
        master_index(indexes, bundles).contains_key(chunk_id) ==> master_index(
            gc_result(indexes, live),
            bundles,
        )[chunk_id] == master_index(indexes, bundles)[chunk_id],
{
    lemma_gc_result_agree(indexes, bundles, live);
}

proof fn lemma_live_chunks_contains(chunks: Seq<ChunkRecord>, live: Set<ChunkId>, record: ChunkRecord)
    ensures
        live_chunks(chunks, live).contains(record) <==> chunks.contains(record) && live.contains(
            record.chunk_id,
        ),
    decreases chunks.len(),
{
    if chunks.len() > 0 {
        let front = chunks.drop_last();
        let last = chunks.last();
        lemma_live_chunks_contains(front, live, record);
        let kept_front = live_chunks(front, live);
        assert(chunks[chunks.len() - 1] == last);
        if front.contains(record) {
            let k = choose|k: int| 0 <= k < front.len() && front[k] == record;
            assert(chunks[k] == record);
        }
        if chunks.contains(record) {
            let k = choose|k: int| 0 <= k < chunks.len() && chunks[k] == record;
            if k < front.len() {
                assert(front[k] == record);
            }
        }
        if live.contains(last.chunk_id) {
            let kept = kept_front.push(last);
            assert(kept[kept_front.len() as int] == last);
            if kept_front.contains(record) {
                let k = choose|k: int| 0 <= k < kept_front.len() && kept_front[k] == record;
                assert(kept[k] == record);
            }
            if kept.contains(record) {
                let k = choose|k: int| 0 <= k < kept.len() && kept[k] == record;
                if k < kept_front.len() {
                    assert(kept_front[k] == record);
                }
            }
        }
    }
}

proof fn lemma_gc_entry_lists(entry: IndexEntrySpec, live: Set<ChunkId>, listing: Listing)
    requires
        live.contains(listing.0),
    ensures
        in_entry(
            IndexEntrySpec { bundle_id: entry.bundle_id, chunks: live_chunks(entry.chunks, live) },
            listing,
        ) <==> in_entry(entry, listing),
{
    let cut = IndexEntrySpec { bundle_id: entry.bundle_id, chunks: live_chunks(entry.chunks, live) };
    if in_entry(cut, listing) {
        let k = choose|k: int|
            0 <= k < cut.chunks.len() && #[trigger] listing_of(cut.bundle_id, cut.chunks[k])
                == listing;
        let record = cut.chunks[k];
        assert(cut.chunks.contains(record));
        lemma_live_chunks_contains(entry.chunks, live, record);
        let k2 = choose|k2: int| 0 <= k2 < entry.chunks.len() && entry.chunks[k2] == record;
        assert(listing_of(entry.bundle_id, entry.chunks[k2]) == listing);
    }
    if in_entry(entry, listing) {
        let k = choose|k: int|
            0 <= k < entry.chunks.len() && #[trigger] listing_of(entry.bundle_id, entry.chunks[k])
                == listing;
        let record = entry.chunks[k];
        assert(entry.chunks.contains(record));
        lemma_live_chunks_contains(entry.chunks, live, record);
        let k2 = choose|k2: int| 0 <= k2 < cut.chunks.len() && cut.chunks[k2] == record;
        assert(listing_of(cut.bundle_id, cut.chunks[k2]) == listing);
    }
}

proof fn lemma_gc_entries_list(
    entries: Seq<IndexEntrySpec>,
    bundles: Set<BundleId>,
    live: Set<ChunkId>,
    listing: Listing,
)
    requires
        live.contains(listing.0),
    ensures
        in_index(gc_entries(entries, live), bundles, listing) <==> in_index(
            entries,
            bundles,
            listing,
        ),
    decreases entries.len(),
{
    if entries.len() > 0 {
        let front = entries.drop_last();
        let last = entries.last();
        let kept = live_chunks(last.chunks, live);
        let cut = IndexEntrySpec { bundle_id: last.bundle_id, chunks: kept };
        let after_front = gc_entries(front, live);
        let after = gc_entries(entries, live);
        lemma_gc_entries_list(front, bundles, live, listing);
        lemma_gc_entry_lists(last, live, listing);
        assert(entries[entries.len() - 1] == last);
        if in_index(front, bundles, listing) {
            let j = choose|j: int|
                0 <= j < front.len() && bundles.contains(front[j].bundle_id) && in_entry(
                    #[trigger] front[j],
                    listing,
                );
            assert(entries[j] == front[j]);
        }
        if in_index(entries, bundles, listing) {
            let j = choose|j: int|
                0 <= j < entries.len() && bundles.contains(entries[j].bundle_id) && in_entry(
                    #[trigger] entries[j],
                    listing,
                );
            if j < front.len() {
                assert(front[j] == entries[j]);
            }
        }
        if in_entry(cut, listing) {
            assert(kept.len() > 0);
        }
        if kept.len() > 0 {
            assert(after[after_front.len() as int] == cut);
            if in_index(after_front, bundles, listing) {
                let j = choose|j: int|
                    0 <= j < after_front.len() && bundles.contains(after_front[j].bundle_id)
                        && in_entry(#[trigger] after_front[j], listing);
                assert(after[j] == after_front[j]);
            }
            if in_index(after, bundles, listing) {
                let j = choose|j: int|
                    0 <= j < after.len() && bundles.contains(after[j].bundle_id) && in_entry(
                        #[trigger] after[j],
                        listing,
                    );
                if j < after_front.len() {
                    assert(after_front[j] == after[j]);
                }
            }
        }
    }
}

/// Garbage collection neither adds nor drops a listing of a live chunk.
pub proof fn lemma_gc_result_lists(
    indexes: Seq<Seq<IndexEntrySpec>>,
    bundles: Set<BundleId>,
    live: Set<ChunkId>,
    listing: Listing,
)
    requires
        live.contains(listing.0),
    ensures
        in_files(gc_result(indexes, live), bundles, listing) <==> in_files(
            indexes,
            bundles,
            listing,
        ),
{
    let after = gc_result(indexes, live);
    assert forall|i: int| 0 <= i < indexes.len() implies (in_index(
        #[trigger] after[i],
        bundles,
        listing,
    ) <==> in_index(indexes[i], bundles, listing)) by {
        if !all_live(indexes[i], live) {
            lemma_gc_entries_list(indexes[i], bundles, live, listing);
        }
    }
    if in_files(after, bundles, listing) {
        let i = choose|i: int| 0 <= i < after.len() && in_index(#[trigger] after[i], bundles, listing);
        assert(in_index(indexes[i], bundles, listing));
    }
    if in_files(indexes, bundles, listing) {
        let i = choose|i: int|
            0 <= i < indexes.len() && in_index(#[trigger] indexes[i], bundles, listing);
        assert(in_index(after[i], bundles, listing));
    }
}

/// Whether the index files say one thing only of the chunk: all its
/// listings under bundles that exist give the same bundle and size.
pub open spec fn unambiguous(
    indexes: Seq<Seq<IndexEntrySpec>>,
    bundles: Set<BundleId>,
    chunk_id: ChunkId,
) -> bool {
    forall|a: IndexEntry, b: IndexEntry|
        #[trigger] in_files(indexes, bundles, (chunk_id, a)) && #[trigger] in_files(
            indexes,
            bundles,
            (chunk_id, b),
        ) ==> a == b
}

/// Garbage collection of the index files keeps every live chunk, in
/// whatever order the index files are read afterwards, as long as the index
/// files said one thing only of the chunk: it is in the master index after
/// the run exactly if it was before, and with the same bundle and size.
pub proof fn lemma_gc_indexes_preserves_live_in_any_order(
    indexes: Seq<Seq<IndexEntrySpec>>,
    bundles: Set<BundleId>,
    live: Set<ChunkId>,
    reread: Seq<Seq<IndexEntrySpec>>,
    chunk_id: ChunkId,
)
    requires
        live.contains(chunk_id),
        forall|file: Seq<IndexEntrySpec>|
            reread.contains(file) <==> gc_result(indexes, live).contains(file),
        unambiguous(indexes, bundles, chunk_id),
    ensures
        master_index(reread, bundles).contains_key(chunk_id) == master_index(
            indexes,
            bundles,
        ).contains_key(chunk_id),
        master_index(indexes, bundles).contains_key(chunk_id) ==> master_index(
            reread,
            bundles,
        )[chunk_id] == master_index(indexes, bundles)[chunk_id],
{
    let after = gc_result(indexes, live);
    lemma_master_index_is_listed(indexes, bundles, chunk_id);
    lemma_master_index_is_listed(reread, bundles, chunk_id);
    assert forall|entry: IndexEntry|
        in_files(reread, bundles, (chunk_id, entry)) <==> in_files(
            indexes,
            bundles,
            (chunk_id, entry),
        ) by {
        let listing = (chunk_id, entry);
        lemma_gc_result_lists(indexes, bundles, live, listing);
        if in_files(reread, bundles, listing) {
            let i = choose|i: int|
                0 <= i < reread.len() && in_index(#[trigger] reread[i], bundles, listing);
            let file = reread[i];
            assert(reread.contains(file));
            assert(gc_result(indexes, live).contains(file));
            let k = choose|k: int| 0 <= k < after.len() && after[k] == file;
            assert(in_index(after[k], bundles, listing));
        }
        if in_files(after, bundles, listing) {
            let i = choose|i: int|
                0 <= i < after.len() && in_index(#[trigger] after[i], bundles, listing);
            let file = after[i];
            assert(gc_result(indexes, live).contains(file));
            assert(reread.contains(file));
            let k = choose|k: int| 0 <= k < reread.len() && reread[k] == file;
            assert(in_index(reread[k], bundles, listing));
        }
    }
    if master_index(indexes, bundles).contains_key(chunk_id) {
        let before = master_index(indexes, bundles)[chunk_id];
        assert(in_files(reread, bundles, (chunk_id, before)));
        let now = master_index(reread, bundles)[chunk_id];
        assert(in_files(indexes, bundles, (chunk_id, now)));
    }
}

} // verus!
