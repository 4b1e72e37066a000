//! Dropping from the bundles the chunks that no index lists, and the
//! bundles that keep none.
//!
//! The bundles are gone through in the order scanned.  A chunk of a bundle
//! stays if some index lists it under that bundle and it has not been kept
//! before, in an earlier bundle or earlier in the same one.  A bundle that
//! keeps no chunk is deleted; one that keeps some but not all is rewritten
//! with the chunks it keeps; one that keeps all is left alone.

use crate::balance_indexes::ScannedBundle;
use crate::data::{BundleId, ChunkId};
use crate::gc_indexes::{loaded_views, LoadedIndex};
use crate::idmap::{IdSet, PairSet};
use crate::index_file::{entries_view, IndexEntrySpec};
use crate::records::{copy_bytes, ChunkRecord};
use vstd::prelude::*;

verus! {

/// The pairs of bundle and chunk that one entry lists.
pub open spec fn entry_pairs(
    base: Set<(BundleId, ChunkId)>,
    bundle_id: BundleId,
    chunks: Seq<ChunkRecord>,
) -> Set<(BundleId, ChunkId)>
    decreases chunks.len(),
{
    if chunks.len() == 0 {
        base
    } else {
        entry_pairs(base, bundle_id, chunks.drop_last()).insert(
            (bundle_id, chunks.last().chunk_id),
        )
    }
}

/// The pairs of bundle and chunk that the entries of one index file list.
pub open spec fn index_pairs(base: Set<(BundleId, ChunkId)>, entries: Seq<IndexEntrySpec>) -> Set<
    (BundleId, ChunkId),
>
    decreases entries.len(),
{
    if entries.len() == 0 {
        base
    } else {
        entry_pairs(
            index_pairs(base, entries.drop_last()),
            entries.last().bundle_id,
            entries.last().chunks,
        )
    }
}

/// The pairs of bundle and chunk that the index files list.
pub open spec fn all_pairs(indexes: Seq<Seq<IndexEntrySpec>>) -> Set<(BundleId, ChunkId)>
    decreases indexes.len(),
{
    if indexes.len() == 0 {
        Set::empty()
    } else {
        index_pairs(all_pairs(indexes.drop_last()), indexes.last())
    }
}

/// Collects every pair of bundle and chunk that the index files list.
pub fn get_all_index_entries(indexes: &Vec<LoadedIndex>) -> (all_index_entries: PairSet)
    ensures
        all_index_entries@ == all_pairs(loaded_views(indexes@)),
{
    let ghost views = loaded_views(indexes@);
    let mut pairs = PairSet::new();
    let mut i: usize = 0;
    proof {
        assert(views.take(0) =~= Seq::<Seq<IndexEntrySpec>>::empty());
    }
    while i < indexes.len()
        invariant
            i <= indexes@.len(),
            views == loaded_views(indexes@),
            pairs@ == all_pairs(views.take(i as int)),
        decreases indexes@.len() - i,
    {
        let entries = &indexes[i].entries;
        let ghost shown = entries_view(entries@);
        let ghost start = pairs@;
        let mut j: usize = 0;
        proof {
            assert(views.take(i + 1).drop_last() =~= views.take(i as int));
            assert(views.take(i + 1).last() == shown);
            assert(shown.take(0) =~= Seq::<IndexEntrySpec>::empty());
        }
        while j < entries.len()
            invariant
                j <= entries@.len(),
                shown == entries_view(entries@),
                pairs@ == index_pairs(start, shown.take(j as int)),
            decreases entries@.len() - j,
        {
            let entry = &entries[j];
            let ghost before = pairs@;
            let mut k: usize = 0;
            proof {
                assert(shown.take(j + 1).drop_last() =~= shown.take(j as int));
                assert(shown.take(j + 1).last() == entry@);
                assert(entry.chunks@.take(0) =~= Seq::<ChunkRecord>::empty());
            }
            while k < entry.chunks.len()
                invariant
                    k <= entry.chunks@.len(),
                    pairs@ == entry_pairs(before, entry.bundle_id, entry.chunks@.take(k as int)),
                decreases entry.chunks@.len() - k,
            {
                pairs.insert(entry.bundle_id, entry.chunks[k].chunk_id);
                proof {
                    assert(entry.chunks@.take(k + 1).drop_last() =~= entry.chunks@.take(k as int));
                    assert(entry.chunks@.take(k + 1).last() == entry.chunks@[k as int]);
                }
                k = k + 1;
            }
            proof {
                assert(entry.chunks@.take(k as int) =~= entry.chunks@);
            }
            j = j + 1;
        }
        proof {
            assert(shown.take(j as int) =~= shown);
        }
        i = i + 1;
    }
    proof {
        assert(views.take(i as int) =~= views);
    }
    pairs
}

/// A bundle as the rules see it: its name and the chunks it holds, in order.
pub struct BundleSpec {
    pub bundle_id: BundleId,
    pub chunks: Seq<ChunkRecord>,
}

/// What the scanned bundles stand for.
pub open spec fn bundle_specs(bundles: Seq<ScannedBundle>) -> Seq<BundleSpec> {
    bundles.map_values(
        |bundle: ScannedBundle| BundleSpec { bundle_id: bundle.bundle_id, chunks: bundle.chunks@ },
    )
}

/// Whether some index lists the chunk at position `p` of the bundle `i`
/// under that bundle.
pub open spec fn indexed_at(
    bundles: Seq<BundleSpec>,
    pairs: Set<(BundleId, ChunkId)>,
    i: int,
    p: int,
) -> bool {
    pairs.contains((bundles[i].bundle_id, bundles[i].chunks[p].chunk_id))
}

/// The chunks that bundles before the `i`-th hold and some index lists under
/// them: these have been kept by the time the `i`-th bundle is looked at.
pub open spec fn seen_before(bundles: Seq<BundleSpec>, pairs: Set<(BundleId, ChunkId)>, i: int)
    -> Set<ChunkId> {
    Set::new(
        |chunk_id: ChunkId|
            exists|other: int, place: int|
                0 <= other < i && other < bundles.len() && 0 <= place < bundles[other].chunks.len()
                    && #[trigger] indexed_at(bundles, pairs, other, place) && bundles[other].chunks[place].chunk_id
                    == chunk_id,
    )
}

/// Whether the chunk at position `p` of the bundle `i` stays: some index
/// lists it under that bundle, no earlier bundle has kept it, and it does
/// not occur earlier in the same bundle.
pub open spec fn survives(bundles: Seq<BundleSpec>, pairs: Set<(BundleId, ChunkId)>, i: int, p: int)
    -> bool {
    &&& indexed_at(bundles, pairs, i, p)
    &&& !seen_before(bundles, pairs, i).contains(bundles[i].chunks[p].chunk_id)
    &&& forall|q: int|
        0 <= q < p ==> (#[trigger] bundles[i].chunks[q]).chunk_id != bundles[i].chunks[p].chunk_id
}

/// The positions, among the first `n` of the bundle `i`, of the chunks that
/// stay, in order.
pub open spec fn kept_positions(
    bundles: Seq<BundleSpec>,
    pairs: Set<(BundleId, ChunkId)>,
    i: int,
    n: int,
) -> Seq<usize>
    decreases n,
{
    if n <= 0 {
        Seq::empty()
    } else {
        let front = kept_positions(bundles, pairs, i, n - 1);
        if survives(bundles, pairs, i, n - 1) {
            front.push((n - 1) as usize)
        } else {
            front
        }
    }
}

/// What is to become of one bundle.
#[derive(Clone, Debug, PartialEq, Eq)]
pub enum BundleVerdict {
    /// It keeps no chunk: the file is removed.
    Delete,
    /// It keeps some chunks and loses others: the file is rewritten with the
    /// chunks at these positions.
    Compact(Vec<usize>),
    /// It keeps all its chunks: the file stays as it is.
    Keep,
}

/// What a `BundleVerdict` stands for.
pub enum VerdictSpec {
    Delete,
    Compact(Seq<usize>),
    Keep,
}

impl View for BundleVerdict {
    type V = VerdictSpec;

    open spec fn view(&self) -> VerdictSpec {
        match self {
            BundleVerdict::Delete => VerdictSpec::Delete,
            BundleVerdict::Compact(keep) => VerdictSpec::Compact(keep@),
            BundleVerdict::Keep => VerdictSpec::Keep,
        }
    }
}

/// The verdict on the bundle `i`.
pub open spec fn verdict_of(bundles: Seq<BundleSpec>, pairs: Set<(BundleId, ChunkId)>, i: int)
    -> VerdictSpec {
    let keep = kept_positions(bundles, pairs, i, bundles[i].chunks.len() as int);
    if keep.len() == 0 {
        VerdictSpec::Delete
    } else if keep.len() < bundles[i].chunks.len() {
        VerdictSpec::Compact(keep)
    } else {
        VerdictSpec::Keep
    }
}

/// No more positions are kept than there are, and each is one of them.
pub proof fn lemma_kept_positions(
    bundles: Seq<BundleSpec>,
    pairs: Set<(BundleId, ChunkId)>,
    i: int,
    n: int,
)
    requires
        0 <= n <= usize::MAX,
    ensures
        kept_positions(bundles, pairs, i, n).len() <= n,
        forall|k: int|
            0 <= k < kept_positions(bundles, pairs, i, n).len() ==> 0 <= (#[trigger] kept_positions(
                bundles,
                pairs,
                i,
                n,
            )[k]) < n && survives(bundles, pairs, i, kept_positions(bundles, pairs, i, n)[k] as int),
        forall|p: int|
            0 <= p < n && survives(bundles, pairs, i, p) ==> kept_positions(
                bundles,
                pairs,
                i,
                n,
            ).contains(p as usize),
    decreases n,
{
    if n > 0 {
        lemma_kept_positions(bundles, pairs, i, n - 1);
        let front = kept_positions(bundles, pairs, i, n - 1);
        let whole = kept_positions(bundles, pairs, i, n);
        assert forall|p: int|
            0 <= p < n && survives(bundles, pairs, i, p) implies whole.contains(
            p as usize,
        ) by {
            if p < n - 1 {
                let k = choose|k: int| 0 <= k < front.len() && front[k] == p as usize;
                assert(whole[k] == p as usize);
            } else {
                assert(whole[whole.len() - 1] == p as usize);
            }
        }
    }
}

/// The chunks that have been kept by the time the chunk at position `p` of
/// the bundle `i` is looked at: those kept by earlier bundles, and those
/// that the bundle itself holds before `p` and some index lists under it.
pub open spec fn seen_within(
    bundles: Seq<BundleSpec>,
    pairs: Set<(BundleId, ChunkId)>,
    i: int,
    p: int,
) -> Set<ChunkId> {
    Set::new(
        |chunk_id: ChunkId|
            seen_before(bundles, pairs, i).contains(chunk_id) || exists|q: int|
                0 <= q < p && q < bundles[i].chunks.len() && #[trigger] indexed_at(
                    bundles,
                    pairs,
                    i,
                    q,
                ) && bundles[i].chunks[q].chunk_id == chunk_id,
    )
}

/// Before the first chunk of a bundle is looked at, what has been kept is
/// what earlier bundles kept.
pub proof fn lemma_seen_within_start(
    bundles: Seq<BundleSpec>,
    pairs: Set<(BundleId, ChunkId)>,
    i: int,
)
    ensures
        seen_within(bundles, pairs, i, 0) == seen_before(bundles, pairs, i),
{
    assert(seen_within(bundles, pairs, i, 0) =~= seen_before(bundles, pairs, i));
}

/// Looking at one more chunk adds it to what has been kept exactly if some
/// index lists it under the bundle.
pub proof fn lemma_seen_within_step(
    bundles: Seq<BundleSpec>,
    pairs: Set<(BundleId, ChunkId)>,
    i: int,
    p: int,
)
    requires
        0 <= i < bundles.len(),
        0 <= p < bundles[i].chunks.len(),
    ensures
        seen_within(bundles, pairs, i, p + 1) == if indexed_at(bundles, pairs, i, p) {
            seen_within(bundles, pairs, i, p).insert(bundles[i].chunks[p].chunk_id)
        } else {
            seen_within(bundles, pairs, i, p)
        },
        survives(bundles, pairs, i, p) <==> indexed_at(bundles, pairs, i, p) && !seen_within(
            bundles,
            pairs,
            i,
            p,
        ).contains(bundles[i].chunks[p].chunk_id),
{
    let here = bundles[i].chunks[p].chunk_id;
    let before = seen_within(bundles, pairs, i, p);
    let after = seen_within(bundles, pairs, i, p + 1);
    let target = if indexed_at(bundles, pairs, i, p) {
        before.insert(here)
    } else {
        before
    };
    assert forall|c: ChunkId| after.contains(c) <==> target.contains(c) by {
        if after.contains(c) && !seen_before(bundles, pairs, i).contains(c) {
            let q = choose|q: int|
                0 <= q < p + 1 && q < bundles[i].chunks.len() && #[trigger] indexed_at(
                    bundles,
                    pairs,
                    i,
                    q,
                ) && bundles[i].chunks[q].chunk_id == c;
            if q < p {
                assert(indexed_at(bundles, pairs, i, q));
                assert(before.contains(c));
            }
        }
        if before.contains(c) && !seen_before(bundles, pairs, i).contains(c) {
            let q = choose|q: int|
                0 <= q < p && q < bundles[i].chunks.len() && #[trigger] indexed_at(
                    bundles,
                    pairs,
                    i,
                    q,
                ) && bundles[i].chunks[q].chunk_id == c;
            assert(0 <= q < p + 1 && indexed_at(bundles, pairs, i, q));
            assert(after.contains(c));
        }
        if indexed_at(bundles, pairs, i, p) && c == here {
            assert(after.contains(c));
        }
    }
    assert(after =~= target);
    if indexed_at(bundles, pairs, i, p) {
        if before.contains(here) && !seen_before(bundles, pairs, i).contains(here) {
            let q = choose|q: int|
                0 <= q < p && q < bundles[i].chunks.len() && #[trigger] indexed_at(
                    bundles,
                    pairs,
                    i,
                    q,
                ) && bundles[i].chunks[q].chunk_id == here;
            assert(bundles[i].chunks[q].chunk_id == here);
        }
        if !before.contains(here) {
            assert forall|q: int| 0 <= q < p implies (#[trigger] bundles[i].chunks[q]).chunk_id
                != here by {
                if bundles[i].chunks[q].chunk_id == here {
                    assert(indexed_at(bundles, pairs, i, q));
                }
            }
        }
    }
}

/// When the last chunk of a bundle has been looked at, what has been kept
/// is what the next bundle finds kept.
pub proof fn lemma_seen_within_end(bundles: Seq<BundleSpec>, pairs: Set<(BundleId, ChunkId)>, i: int)
    requires
        0 <= i < bundles.len(),
    ensures
        seen_within(bundles, pairs, i, bundles[i].chunks.len() as int) == seen_before(
            bundles,
            pairs,
            i + 1,
        ),
{
    let n = bundles[i].chunks.len() as int;
    let a = seen_within(bundles, pairs, i, n);
    let b = seen_before(bundles, pairs, i + 1);
    assert forall|c: ChunkId| a.contains(c) <==> b.contains(c) by {
        if a.contains(c) {
            if seen_before(bundles, pairs, i).contains(c) {
                let (other, place) = choose|other: int, place: int|
                    0 <= other < i && other < bundles.len() && 0 <= place < bundles[other].chunks.len()
                        && #[trigger] indexed_at(bundles, pairs, other, place)
                        && bundles[other].chunks[place].chunk_id == c;
                assert(0 <= other < i + 1 && indexed_at(bundles, pairs, other, place));
            } else {
                let q = choose|q: int|
                    0 <= q < n && q < bundles[i].chunks.len() && #[trigger] indexed_at(
                        bundles,
                        pairs,
                        i,
                        q,
                    ) && bundles[i].chunks[q].chunk_id == c;
                assert(indexed_at(bundles, pairs, i, q));
            }
        }
        if b.contains(c) {
            let (other, place) = choose|other: int, place: int|
                0 <= other < i + 1 && other < bundles.len() && 0 <= place < bundles[other].chunks.len()
                    && #[trigger] indexed_at(bundles, pairs, other, place)
                    && bundles[other].chunks[place].chunk_id == c;
            if other < i {
                assert(indexed_at(bundles, pairs, other, place));
                assert(seen_before(bundles, pairs, i).contains(c));
            } else {
                assert(indexed_at(bundles, pairs, i, place));
            }
        }
    }
    assert(a =~= b);
}

/// Decides what is to become of the bundle at position `i`, and adds the
/// chunks it keeps to `seen`.
pub fn classify_bundle(
    old_bundles: &Vec<ScannedBundle>,
    i: usize,
    all_index_entries: &PairSet,
    seen: &mut IdSet,
) -> (verdict: BundleVerdict)
    requires
        i < old_bundles@.len(),
        old(seen)@ == seen_before(bundle_specs(old_bundles@), all_index_entries@, i as int),
    ensures
        verdict@ == verdict_of(bundle_specs(old_bundles@), all_index_entries@, i as int),
        final(seen)@ == seen_before(bundle_specs(old_bundles@), all_index_entries@, i + 1),
{
    let ghost bundles = bundle_specs(old_bundles@);
    let ghost pairs = all_index_entries@;
    let bundle = &old_bundles[i];
    let mut keep: Vec<usize> = Vec::new();
    let mut p: usize = 0;
    proof {
        assert(bundles[i as int].chunks == bundle.chunks@);
        assert(bundles[i as int].bundle_id == bundle.bundle_id);
        lemma_seen_within_start(bundles, pairs, i as int);
    }
    while p < bundle.chunks.len()
        invariant
            p <= bundle.chunks@.len(),
            i < bundles.len(),
            pairs == all_index_entries@,
            bundles[i as int].chunks == bundle.chunks@,
            bundles[i as int].bundle_id == bundle.bundle_id,
            keep@ == kept_positions(bundles, pairs, i as int, p as int),
            seen@ == seen_within(bundles, pairs, i as int, p as int),
        decreases bundle.chunks@.len() - p,
    {
        let chunk_id = bundle.chunks[p].chunk_id;
        let listed = all_index_entries.contains(&bundle.bundle_id, &chunk_id);
        let fresh = !seen.contains(&chunk_id);
        proof {
            lemma_seen_within_step(bundles, pairs, i as int, p as int);
        }
        if listed {
            if fresh {
                keep.push(p);
            }
            seen.insert(chunk_id);
            proof {
                assert(seen@ =~= seen_within(bundles, pairs, i as int, p + 1));
            }
        }
        p = p + 1;
    }
    proof {
        lemma_seen_within_end(bundles, pairs, i as int);
    }
    if keep.len() == 0 {
        BundleVerdict::Delete
    } else if keep.len() < bundle.chunks.len() {
        BundleVerdict::Compact(keep)
    } else {
        BundleVerdict::Keep
    }
}

/// A bundle to rewrite, and the positions of the chunks it keeps.
#[derive(Clone, Debug, PartialEq, Eq)]
pub struct Compaction {
    pub bundle_id: BundleId,
    pub keep: Vec<usize>,
}

/// What a `Compaction` stands for.
pub struct CompactionSpec {
    pub bundle_id: BundleId,
    pub keep: Seq<usize>,
}

impl View for Compaction {
    type V = CompactionSpec;

    open spec fn view(&self) -> CompactionSpec {
        CompactionSpec { bundle_id: self.bundle_id, keep: self.keep@ }
    }
}

/// What a garbage collection of the bundles comes to.  The deletions are
/// carried out first, the rewrites after.
#[derive(Clone, Debug, PartialEq, Eq)]
pub struct GcBundlesPlan {
    pub bundles_to_delete: Vec<BundleId>,
    pub bundles_to_compact: Vec<Compaction>,
}

/// The names of the bundles, among the first `n`, that keep no chunk.
pub open spec fn deleted_bundles(bundles: Seq<BundleSpec>, pairs: Set<(BundleId, ChunkId)>, n: int)
    -> Seq<BundleId>
    decreases n,
{
    if n <= 0 {
        Seq::empty()
    } else {
        let front = deleted_bundles(bundles, pairs, n - 1);
        if verdict_of(bundles, pairs, n - 1) is Delete {
            front.push(bundles[n - 1].bundle_id)
        } else {
            front
        }
    }
}

/// The bundles, among the first `n`, that keep some chunks and lose others,
/// each with the positions it keeps.
pub open spec fn compacted_bundles(bundles: Seq<BundleSpec>, pairs: Set<(BundleId, ChunkId)>, n: int)
    -> Seq<CompactionSpec>
    decreases n,
{
    if n <= 0 {
        Seq::empty()
    } else {
        let front = compacted_bundles(bundles, pairs, n - 1);
        match verdict_of(bundles, pairs, n - 1) {
            VerdictSpec::Compact(keep) => front.push(
                CompactionSpec { bundle_id: bundles[n - 1].bundle_id, keep },
            ),
            _ => front,
        }
    }
}

/// What the compactions in a vector stand for.
pub open spec fn compaction_views(compactions: Seq<Compaction>) -> Seq<CompactionSpec> {
    compactions.map_values(|c: Compaction| c@)
}

/// Goes through the bundles in the order scanned and decides for each
/// whether it is deleted, rewritten or left alone.
pub fn read_bundles_metadata(old_bundles: &Vec<ScannedBundle>, all_index_entries: &PairSet) -> (plan:
    GcBundlesPlan)
    ensures
        plan.bundles_to_delete@ == deleted_bundles(
            bundle_specs(old_bundles@),
            all_index_entries@,
            old_bundles@.len() as int,
        ),
        compaction_views(plan.bundles_to_compact@) == compacted_bundles(
            bundle_specs(old_bundles@),
            all_index_entries@,
            old_bundles@.len() as int,
        ),
{
    let ghost bundles = bundle_specs(old_bundles@);
    let ghost pairs = all_index_entries@;
    let mut bundles_to_delete: Vec<BundleId> = Vec::new();
    let mut bundles_to_compact: Vec<Compaction> = Vec::new();
    let mut seen = IdSet::new();
    let mut i: usize = 0;
    proof {
        assert(seen@ =~= seen_before(bundles, pairs, 0));
        assert(compaction_views(bundles_to_compact@) =~= Seq::<CompactionSpec>::empty());
    }
    while i < old_bundles.len()
        invariant
            i <= old_bundles@.len(),
            bundles == bundle_specs(old_bundles@),
            pairs == all_index_entries@,
            seen@ == seen_before(bundles, pairs, i as int),
            bundles_to_delete@ == deleted_bundles(bundles, pairs, i as int),
            compaction_views(bundles_to_compact@) == compacted_bundles(bundles, pairs, i as int),
        decreases old_bundles@.len() - i,
    {
        let verdict = classify_bundle(old_bundles, i, all_index_entries, &mut seen);
        let ghost done = compaction_views(bundles_to_compact@);
        match verdict {
            BundleVerdict::Delete => {
                bundles_to_delete.push(old_bundles[i].bundle_id);
            },
            BundleVerdict::Compact(keep) => {
                let compaction = Compaction { bundle_id: old_bundles[i].bundle_id, keep };
                let ghost shown = compaction@;
                bundles_to_compact.push(compaction);
                proof {
                    assert(compaction_views(bundles_to_compact@) =~= done.push(shown));
                }
            },
            BundleVerdict::Keep => {},
        }
        i = i + 1;
    }
    GcBundlesPlan { bundles_to_delete, bundles_to_compact }
}

/// Plans the garbage collection of the bundles from the index files and the
/// bundles' own records.
pub fn gc_bundles(old_indexes: &Vec<LoadedIndex>, old_bundles: &Vec<ScannedBundle>) -> (plan:
    GcBundlesPlan)
    ensures
        plan.bundles_to_delete@ == deleted_bundles(
            bundle_specs(old_bundles@),
            all_pairs(loaded_views(old_indexes@)),
            old_bundles@.len() as int,
        ),
        compaction_views(plan.bundles_to_compact@) == compacted_bundles(
            bundle_specs(old_bundles@),
            all_pairs(loaded_views(old_indexes@)),
            old_bundles@.len() as int,
        ),
{
    let all_index_entries = get_all_index_entries(old_indexes);
    read_bundles_metadata(old_bundles, &all_index_entries)
}

/// A chunk with its bytes.
#[derive(Clone, Debug, PartialEq, Eq)]
pub struct Chunk {
    pub chunk_id: ChunkId,
    pub data: Vec<u8>,
}

/// What a `Chunk` stands for.
pub struct ChunkSpec {
    pub chunk_id: ChunkId,
    pub data: Seq<u8>,
}

impl View for Chunk {
    type V = ChunkSpec;

    open spec fn view(&self) -> ChunkSpec {
        ChunkSpec { chunk_id: self.chunk_id, data: self.data@ }
    }
}

/// What the chunks in a vector stand for.
pub open spec fn chunk_views(chunks: Seq<Chunk>) -> Seq<ChunkSpec> {
    chunks.map_values(|c: Chunk| c@)
}

/// The chunks at the positions `keep`, in that order.
pub open spec fn selected(chunks: Seq<ChunkSpec>, keep: Seq<usize>) -> Seq<ChunkSpec> {
    Seq::new(keep.len(), |k: int| chunks[keep[k] as int])
}

/// The contents of a rewritten bundle: of the chunks read from the old
/// file, those at the positions to keep.  `None` where a position lies
/// beyond the chunks that were read.
pub fn compact_bundle(uncompacted_bundle: &Vec<Chunk>, keep: &Vec<usize>) -> (compacted_bundle:
    Option<Vec<Chunk>>)
    ensures
        match compacted_bundle {
            Some(kept) => chunk_views(kept@) == selected(chunk_views(uncompacted_bundle@), keep@)
                && forall|k: int| 0 <= k < keep@.len() ==> keep@[k] < uncompacted_bundle@.len(),
            None => exists|k: int| 0 <= k < keep@.len() && keep@[k] >= uncompacted_bundle@.len(),
        },
{
    let mut kept: Vec<Chunk> = Vec::new();
    let mut k: usize = 0;
    while k < keep.len()
        invariant
            k <= keep@.len(),
            kept@.len() == k,
            forall|j: int| 0 <= j < k ==> keep@[j] < uncompacted_bundle@.len(),
            forall|j: int|
                0 <= j < k ==> (#[trigger] kept@[j])@ == uncompacted_bundle@[keep@[j] as int]@,
        decreases keep@.len() - k,
    {
        let at = keep[k];
        if at >= uncompacted_bundle.len() {
            return None;
        }
        let chunk = &uncompacted_bundle[at];
        kept.push(Chunk { chunk_id: chunk.chunk_id, data: copy_bytes(&chunk.data) });
        k = k + 1;
    }
    proof {
        assert(chunk_views(kept@) =~= selected(chunk_views(uncompacted_bundle@), keep@));
    }
    Some(kept)
}

/// After the run no chunk is held twice: two chunks that stay, in the same
/// bundle or in two, are different chunks.
pub proof fn lemma_gc_bundles_no_duplicates(
    bundles: Seq<BundleSpec>,
    pairs: Set<(BundleId, ChunkId)>,
    i: int,
    p: int,
    other: int,
    place: int,
)
    requires
        0 <= i < bundles.len(),
        0 <= p < bundles[i].chunks.len(),
        0 <= other < bundles.len(),
        0 <= place < bundles[other].chunks.len(),
        survives(bundles, pairs, i, p),
        survives(bundles, pairs, other, place),
        bundles[i].chunks[p].chunk_id == bundles[other].chunks[place].chunk_id,
    ensures
        i == other && p == place,
{
    if i < other {
        assert(indexed_at(bundles, pairs, i, p));
        assert(seen_before(bundles, pairs, other).contains(bundles[i].chunks[p].chunk_id));
    } else if other < i {
        assert(indexed_at(bundles, pairs, other, place));
        assert(seen_before(bundles, pairs, i).contains(bundles[other].chunks[place].chunk_id));
    } else if p < place {
        assert(bundles[i].chunks[p].chunk_id != bundles[i].chunks[place].chunk_id);
    } else if place < p {
        assert(bundles[i].chunks[place].chunk_id != bundles[i].chunks[p].chunk_id);
    }
}

/// After the run every chunk that an index lists under a bundle that holds
/// it is still held, once: some occurrence of it stays.
pub proof fn lemma_gc_bundles_keeps_indexed(
    bundles: Seq<BundleSpec>,
    pairs: Set<(BundleId, ChunkId)>,
    i: int,
    p: int,
) -> (kept: (int, int))
    requires
        0 <= i < bundles.len(),
        0 <= p < bundles[i].chunks.len(),
        indexed_at(bundles, pairs, i, p),
    ensures
        0 <= kept.0 < bundles.len(),
        0 <= kept.1 < bundles[kept.0].chunks.len(),
        survives(bundles, pairs, kept.0, kept.1),
        bundles[kept.0].chunks[kept.1].chunk_id == bundles[i].chunks[p].chunk_id,
    decreases i, p,
{
    let chunk_id = bundles[i].chunks[p].chunk_id;
    if seen_before(bundles, pairs, i).contains(chunk_id) {
        let (other, place) = choose|other: int, place: int|
            0 <= other < i && other < bundles.len() && 0 <= place < bundles[other].chunks.len()
                && #[trigger] indexed_at(bundles, pairs, other, place) && bundles[other].chunks[place].chunk_id
                == chunk_id;
        lemma_gc_bundles_keeps_indexed(bundles, pairs, other, place)
    } else if exists|q: int| 0 <= q < p && (#[trigger] bundles[i].chunks[q]).chunk_id == chunk_id {
        let q = choose|q: int| 0 <= q < p && (#[trigger] bundles[i].chunks[q]).chunk_id == chunk_id;
        assert(indexed_at(bundles, pairs, i, q));
        lemma_gc_bundles_keeps_indexed(bundles, pairs, i, q)
    } else {
        (i, p)
    }
}

/// After the run no bundle is without an indexed chunk: a bundle that is
/// not deleted keeps at least one chunk, and every chunk that stays is
/// listed by some index under its bundle.
pub proof fn lemma_gc_bundles_none_empty(
    bundles: Seq<BundleSpec>,
    pairs: Set<(BundleId, ChunkId)>,
    i: int,
)
    requires
        0 <= i < bundles.len(),
        bundles[i].chunks.len() <= usize::MAX,
    ensures
        !(verdict_of(bundles, pairs, i) is Delete) ==> exists|p: int|
            0 <= p < bundles[i].chunks.len() && #[trigger] survives(bundles, pairs, i, p),
        verdict_of(bundles, pairs, i) is Delete ==> forall|p: int|
            0 <= p < bundles[i].chunks.len() ==> !#[trigger] survives(bundles, pairs, i, p),
        verdict_of(bundles, pairs, i) is Keep ==> forall|p: int|
            0 <= p < bundles[i].chunks.len() ==> #[trigger] survives(bundles, pairs, i, p),
{
    let n = bundles[i].chunks.len() as int;
    let keep = kept_positions(bundles, pairs, i, n);
    lemma_kept_positions(bundles, pairs, i, n);
    if keep.len() > 0 {
        assert(survives(bundles, pairs, i, keep[0] as int));
    }
    if keep.len() == 0 {
        assert forall|p: int| 0 <= p < n implies !#[trigger] survives(bundles, pairs, i, p) by {
            if survives(bundles, pairs, i, p) {
                assert(keep.contains(p as usize));
            }
        }
    }
    if verdict_of(bundles, pairs, i) is Keep {
        lemma_kept_all(bundles, pairs, i, n);
    }
}

proof fn lemma_kept_all(bundles: Seq<BundleSpec>, pairs: Set<(BundleId, ChunkId)>, i: int, n: int)
    requires
        0 <= n <= usize::MAX,
        kept_positions(bundles, pairs, i, n).len() == n,
    ensures
        forall|p: int| 0 <= p < n ==> #[trigger] survives(bundles, pairs, i, p),
    decreases n,
{
    if n > 0 {
        lemma_kept_positions(bundles, pairs, i, n - 1);
        lemma_kept_all(bundles, pairs, i, n - 1);
    }
}

} // verus!
