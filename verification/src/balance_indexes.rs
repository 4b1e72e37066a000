//! Rewriting the index files so that each holds the same number of bundles,
//! from the old index files or from the bundles themselves.

use crate::data::{BundleId, ChunkId, IndexId};
use crate::disk_format::{is_sealed, payload_start};
use crate::index_cache::{
    in_entry, in_files, in_index, lemma_master_index_is_listed, master_index, Listing,
};
use crate::index_file::{entries_view, index_body, write_index, IndexEntrySpec, RawIndexEntry};
use crate::random::random_id;
use crate::records::ChunkRecord;
use vstd::prelude::*;

verus! {

/// `entries` cut into runs of `per`: every run but the last has exactly
/// `per` entries, and the last has what is left, at least one.  With `per`
/// zero no run ever fills, so all entries make one run.
pub open spec fn batches<T>(entries: Seq<T>, per: nat) -> Seq<Seq<T>>
    decreases entries.len(),
{
    if entries.len() == 0 {
        Seq::empty()
    } else if per == 0 || entries.len() <= per {
        seq![entries]
    } else {
        seq![entries.take(per as int)] + batches(entries.skip(per as int), per)
    }
}

/// The parts put end to end.
pub open spec fn flatten<T>(parts: Seq<Seq<T>>) -> Seq<T>
    decreases parts.len(),
{
    if parts.len() == 0 {
        Seq::empty()
    } else {
        flatten(parts.drop_last()) + parts.last()
    }
}

/// Putting a part in front puts its elements in front.
pub proof fn lemma_flatten_front<T>(first: Seq<T>, rest: Seq<Seq<T>>)
    ensures
        flatten(seq![first] + rest) == first + flatten(rest),
    decreases rest.len(),
{
    let all = seq![first] + rest;
    if rest.len() == 0 {
        assert(all.drop_last() =~= Seq::<Seq<T>>::empty());
        assert(all.last() == first);
        assert(flatten(Seq::<Seq<T>>::empty()) =~= Seq::<T>::empty());
        assert(flatten(all) =~= first);
        assert(first + flatten(rest) =~= first);
    } else {
        assert(all.drop_last() =~= seq![first] + rest.drop_last());
        assert(all.last() == rest.last());
        lemma_flatten_front(first, rest.drop_last());
        assert((first + flatten(rest.drop_last())) + rest.last() =~= first + (flatten(
            rest.drop_last(),
        ) + rest.last()));
    }
}

/// The runs put end to end are the entries that were cut.
pub proof fn lemma_batches_flatten<T>(entries: Seq<T>, per: nat)
    ensures
        flatten(batches(entries, per)) == entries,
    decreases entries.len(),
{
    if entries.len() == 0 {
        assert(entries =~= Seq::<T>::empty());
    } else if per == 0 || entries.len() <= per {
        lemma_flatten_front(entries, Seq::empty());
        assert(seq![entries] + Seq::<Seq<T>>::empty() =~= seq![entries]);
        assert(entries + flatten(Seq::<Seq<T>>::empty()) =~= entries);
    } else {
        lemma_batches_flatten(entries.skip(per as int), per);
        lemma_flatten_front(entries.take(per as int), batches(entries.skip(per as int), per));
        assert(entries.take(per as int) + entries.skip(per as int) =~= entries);
    }
}

/// The number of runs: the number of entries divided by `per`, rounded up;
/// and the size of each run.
pub proof fn lemma_batches_shape<T>(entries: Seq<T>, per: nat)
    requires
        per > 0,
    ensures
        batches(entries, per).len() == (entries.len() + per - 1) / (per as int),
        forall|i: int|
            0 <= i < batches(entries, per).len() - 1 ==> (#[trigger] batches(entries, per)[i]).len()
                == per,
        batches(entries, per).len() > 0 ==> 1 <= batches(entries, per).last().len() <= per,
    decreases entries.len(),
{
    let n = entries.len();
    if n == 0 {
        assert((0 + per - 1) / (per as int) == 0) by (nonlinear_arith)
            requires
                per > 0,
        ;
    } else if n <= per {
        assert((n + per - 1) / (per as int) == 1) by (nonlinear_arith)
            requires
                0 < n <= per,
        ;
    } else {
        let rest = entries.skip(per as int);
        lemma_batches_shape(rest, per);
        let tail = batches(rest, per);
        assert((n + per - 1) / (per as int) == (n - per + per - 1) / (per as int) + 1)
            by (nonlinear_arith)
            requires
                per > 0,
                n > per,
        ;
        assert(tail.len() > 0);
        assert forall|i: int| 0 <= i < batches(entries, per).len() - 1 implies (
        #[trigger] batches(entries, per)[i]).len() == per by {
            if i > 0 {
                assert(batches(entries, per)[i] == tail[i - 1]);
            }
        }
        assert(batches(entries, per).last() == tail.last());
    }
}

/// Cutting what was cut before, in the same size, cuts it the same way.
pub proof fn lemma_batches_idempotent<T>(entries: Seq<T>, per: nat)
    ensures
        batches(flatten(batches(entries, per)), per) == batches(entries, per),
{
    lemma_batches_flatten(entries, per);
}

/// The runs that a vector of vectors stands for.
pub open spec fn batch_views<T>(runs: Seq<Vec<T>>) -> Seq<Seq<T>> {
    runs.map_values(|run: Vec<T>| run@)
}

/// Cuts `entries` into runs of `per`.
pub fn split_batches<T>(entries: Vec<T>, per: u64) -> (runs: Vec<Vec<T>>)
    ensures
        batch_views(runs@) == batches(entries@, per as nat),
{
    let mut rest = entries;
    let mut runs: Vec<Vec<T>> = Vec::new();
    proof {
        assert(batch_views(runs@) + batches(rest@, per as nat) =~= batches(
            entries@,
            per as nat,
        ));
    }
    while per != 0 && rest.len() as u64 > per
        invariant
            batch_views(runs@) + batches(rest@, per as nat) == batches(entries@, per as nat),
        decreases rest@.len(),
    {
        let ghost before = rest@;
        let ghost done = batch_views(runs@);
        let tail = rest.split_off(per as usize);
        proof {
            assert(rest@ =~= before.take(per as int));
            assert(tail@ =~= before.skip(per as int));
        }
        runs.push(rest);
        proof {
            assert(batch_views(runs@) =~= done.push(before.take(per as int)));
            assert(done + (seq![before.take(per as int)] + batches(tail@, per as nat))
                =~= done.push(before.take(per as int)) + batches(tail@, per as nat));
        }
        rest = tail;
    }
    if rest.len() > 0 {
        let ghost done = batch_views(runs@);
        let ghost last = rest@;
        runs.push(rest);
        proof {
            assert(batch_views(runs@) =~= done.push(last));
            assert(done + seq![last] =~= done.push(last));
        }
    } else {
        proof {
            assert(batch_views(runs@) + Seq::<Seq<T>>::empty() =~= batch_views(runs@));
        }
    }
    runs
}

/// A new index file: its identifier and its bytes before encryption.
#[derive(Clone, Debug, PartialEq, Eq)]
pub struct NewIndex {
    pub index_id: IndexId,
    pub stream: Vec<u8>,
}

/// Whether `stream` is an index file, before encryption, that holds exactly
/// `entries`.
pub open spec fn holds_index(stream: Seq<u8>, encrypted: bool, entries: Seq<IndexEntrySpec>)
    -> bool {
    &&& is_sealed(stream)
    &&& payload_start(encrypted) <= stream.len() - 4
    &&& stream.subrange(payload_start(encrypted) as int, stream.len() - 4) == index_body(entries)
}

/// Writes the buffered entries out as a new index file under a fresh random
/// name, and empties the buffer.
pub fn flush_index_entries(entries_buffer: &mut Vec<RawIndexEntry>, encrypted: bool) -> (file:
    NewIndex)
    ensures
        final(entries_buffer)@.len() == 0,
        holds_index(file.stream@, encrypted, entries_view(old(entries_buffer)@)),
{
    let index_id = random_id();
    let stream = write_index(encrypted, entries_buffer);
    entries_buffer.clear();
    NewIndex { index_id, stream }
}

/// A file that holds entries reads back as those entries.
pub proof fn lemma_held_index_reads_back(
    stream: Seq<u8>,
    encrypted: bool,
    entries: Seq<IndexEntrySpec>,
)
    requires
        holds_index(stream, encrypted, entries),
        crate::index_file::entries_fit(entries),
    ensures
        crate::index_file::index_decode(
            stream.subrange(payload_start(encrypted) as int, stream.len() - 4),
        ) == Some(entries),
{
    crate::index_file::lemma_index_round_trip(entries);
}

/// What a rewrite of the index files comes to: the files to create, and the
/// old files to delete once the new ones are in place.
#[derive(Clone, Debug, PartialEq, Eq)]
pub struct IndexRewrite {
    pub created: Vec<NewIndex>,
    pub deleted: Vec<IndexId>,
}

/// Whether the files in `created` hold the runs in `runs`, one each, in
/// order.
pub open spec fn holds_runs(created: Seq<NewIndex>, encrypted: bool, runs: Seq<Seq<IndexEntrySpec>>)
    -> bool {
    &&& created.len() == runs.len()
    &&& forall|i: int|
        0 <= i < created.len() ==> holds_index((#[trigger] created[i]).stream@, encrypted, runs[i])
}

/// Cutting commutes with taking what entries stand for.
pub proof fn lemma_batches_of_views(entries: Seq<RawIndexEntry>, per: nat)
    ensures
        batches(entries_view(entries), per) == batches(entries, per).map_values(
            |run: Seq<RawIndexEntry>| entries_view(run),
        ),
    decreases entries.len(),
{
    let f = |run: Seq<RawIndexEntry>| entries_view(run);
    if entries.len() == 0 {
        assert(batches(entries_view(entries), per) =~= batches(entries, per).map_values(f));
    } else if per == 0 || entries.len() <= per {
        assert(batches(entries_view(entries), per) =~= batches(entries, per).map_values(f));
    } else {
        lemma_batches_of_views(entries.skip(per as int), per);
        assert(entries_view(entries).take(per as int) =~= entries_view(entries.take(per as int)));
        assert(entries_view(entries).skip(per as int) =~= entries_view(entries.skip(per as int)));
        assert(batches(entries_view(entries), per) =~= batches(entries, per).map_values(f));
    }
}

/// Writes `entries` out as index files of `bundles_per_index` entries each.
pub fn write_batches(entries: Vec<RawIndexEntry>, bundles_per_index: u64, encrypted: bool) -> (created:
    Vec<NewIndex>)
    ensures
        holds_runs(
            created@,
            encrypted,
            batches(entries_view(entries@), bundles_per_index as nat),
        ),
{
    let ghost target = batches(entries_view(entries@), bundles_per_index as nat);
    let runs = split_batches(entries, bundles_per_index);
    proof {
        lemma_batches_of_views(entries@, bundles_per_index as nat);
    }
    let mut created: Vec<NewIndex> = Vec::new();
    let mut i: usize = 0;
    while i < runs.len()
        invariant
            i <= runs@.len(),
            runs@.len() == target.len(),
            forall|k: int| 0 <= k < runs@.len() ==> entries_view((#[trigger] runs@[k])@) == target[k],
            created@.len() == i,
            forall|k: int|
                0 <= k < i ==> holds_index((#[trigger] created@[k]).stream@, encrypted, target[k]),
        decreases runs@.len() - i,
    {
        let index_id = random_id();
        let stream = write_index(encrypted, &runs[i]);
        created.push(NewIndex { index_id, stream });
        i = i + 1;
    }
    created
}

/// The old index files taken as one run of entries, file after file.
pub open spec fn all_entries(old_indexes: Seq<Vec<RawIndexEntry>>) -> Seq<RawIndexEntry> {
    flatten(batch_views(old_indexes))
}

/// The index files that balancing leaves behind.
pub open spec fn balanced(indexes: Seq<Seq<IndexEntrySpec>>, per: nat) -> Seq<Seq<IndexEntrySpec>> {
    batches(flatten(indexes), per)
}

/// Putting end to end commutes with taking what entries stand for.
pub proof fn lemma_flatten_of_views(old_indexes: Seq<Vec<RawIndexEntry>>)
    ensures
        entries_view(all_entries(old_indexes)) == flatten(index_views(old_indexes)),
    decreases old_indexes.len(),
{
    if old_indexes.len() == 0 {
        assert(entries_view(all_entries(old_indexes)) =~= flatten(index_views(old_indexes)));
    } else {
        lemma_flatten_of_views(old_indexes.drop_last());
        assert(batch_views(old_indexes).drop_last() =~= batch_views(old_indexes.drop_last()));
        assert(index_views(old_indexes).drop_last() =~= index_views(old_indexes.drop_last()));
        assert(entries_view(all_entries(old_indexes)) =~= entries_view(
            all_entries(old_indexes.drop_last()),
        ) + entries_view(old_indexes.last()@));
    }
}

/// The index files that a vector of entry vectors stands for.
pub open spec fn index_views(indexes: Seq<Vec<RawIndexEntry>>) -> Seq<Seq<IndexEntrySpec>> {
    indexes.map_values(|index: Vec<RawIndexEntry>| entries_view(index@))
}

/// Balances the index files: all entries of the old files, in the order
/// read, are written out in new files of `bundles_per_index` entries each,
/// and every old file is to be deleted.
pub fn balance_indexes(
    old_index_ids: Vec<IndexId>,
    old_indexes: Vec<Vec<RawIndexEntry>>,
    bundles_per_index: u64,
    encrypted: bool,
) -> (plan: IndexRewrite)
    ensures
        plan.deleted@ == old_index_ids@,
        holds_runs(
            plan.created@,
            encrypted,
            balanced(index_views(old_indexes@), bundles_per_index as nat),
        ),
{
    let ghost given = old_indexes@;
    let mut entries_buffer: Vec<RawIndexEntry> = Vec::new();
    let mut remaining = old_indexes;
    let mut reversed: Vec<Vec<RawIndexEntry>> = Vec::new();
    while remaining.len() > 0
        invariant
            given == remaining@ + reversed@.reverse(),
        decreases remaining@.len(),
    {
        let ghost before = remaining@;
        let ghost rev = reversed@;
        match remaining.pop() {
            Some(index) => {
                reversed.push(index);
                proof {
                    assert(reversed@.reverse() =~= seq![index] + rev.reverse());
                    assert(before =~= remaining@ + seq![index]);
                    assert(remaining@ + (seq![index] + rev.reverse()) =~= (remaining@
                        + seq![index]) + rev.reverse());
                }
            },
            None => {},
        }
    }
    proof {
        assert(given =~= reversed@.reverse());
        assert(given.take(0) =~= Seq::<Vec<RawIndexEntry>>::empty());
        assert(batch_views(given.take(0)) =~= Seq::<Seq<RawIndexEntry>>::empty());
    }
    let ghost total = reversed@.len();
    while reversed.len() > 0
        invariant
            total == given.len(),
            reversed@.len() <= total,
            reversed@ == given.reverse().take(reversed@.len() as int),
            entries_buffer@ == all_entries(given.take(total - reversed@.len())),
        decreases reversed@.len(),
    {
        let ghost done = (total - reversed@.len()) as int;
        match reversed.pop() {
            Some(index) => {
                let mut index = index;
                proof {
                    assert(index == given.reverse()[reversed@.len() as int]);
                    assert(index == given[done]);
                    assert(given.take(done + 1).drop_last() =~= given.take(done));
                    assert(batch_views(given.take(done + 1)).drop_last() =~= batch_views(
                        given.take(done),
                    ));
                    assert(batch_views(given.take(done + 1)).last() == index@);
                    assert(reversed@ =~= given.reverse().take(reversed@.len() as int));
                }
                entries_buffer.append(&mut index);
            },
            None => {},
        }
    }
    proof {
        assert(given.take(total as int) =~= given);
        lemma_flatten_of_views(given);
    }
    let created = write_batches(entries_buffer, bundles_per_index, encrypted);
    IndexRewrite { created, deleted: old_index_ids }
}

/// The record of a bundle as found in the bundle's own file.
#[derive(Clone, Debug, PartialEq, Eq)]
pub struct ScannedBundle {
    pub bundle_id: BundleId,
    pub chunks: Vec<ChunkRecord>,
}

/// The index entries that the bundles make: one each, in order.
pub open spec fn bundle_entries(bundles: Seq<ScannedBundle>) -> Seq<IndexEntrySpec> {
    bundles.map_values(
        |bundle: ScannedBundle| IndexEntrySpec { bundle_id: bundle.bundle_id, chunks: bundle.chunks@ },
    )
}

/// Rebuilds the index files from the bundles: one entry per bundle, in the
/// order scanned, in new files of `bundles_per_index` entries each.  What
/// index files there were plays no part, and every one of them is to be
/// deleted.
pub fn rebuild_indexes(
    bundles: Vec<ScannedBundle>,
    old_index_ids: Vec<IndexId>,
    bundles_per_index: u64,
    encrypted: bool,
) -> (plan: IndexRewrite)
    ensures
        plan.deleted@ == old_index_ids@,
        holds_runs(
            plan.created@,
            encrypted,
            batches(bundle_entries(bundles@), bundles_per_index as nat),
        ),
{
    let ghost given = bundles@;
    let mut remaining = bundles;
    let mut reversed: Vec<RawIndexEntry> = Vec::new();
    while remaining.len() > 0
        invariant
            remaining@ == given.take(remaining@.len() as int),
            remaining@.len() + reversed@.len() == given.len(),
            forall|k: int|
                0 <= k < reversed@.len() ==> (#[trigger] reversed@[k])@ == bundle_entries(
                    given,
                )[given.len() - 1 - k],
        decreases remaining@.len(),
    {
        match remaining.pop() {
            Some(bundle) => {
                proof {
                    assert(bundle == given[remaining@.len() as int]);
                    assert(remaining@ =~= given.take(remaining@.len() as int));
                }
                reversed.push(RawIndexEntry { bundle_id: bundle.bundle_id, chunks: bundle.chunks });
            },
            None => {},
        }
    }
    let mut entries_buffer: Vec<RawIndexEntry> = Vec::new();
    let ghost rev = reversed@;
    while reversed.len() > 0
        invariant
            rev.len() == given.len(),
            reversed@ == rev.take(reversed@.len() as int),
            entries_buffer@.len() + reversed@.len() == given.len(),
            forall|k: int|
                0 <= k < rev.len() ==> (#[trigger] rev[k])@ == bundle_entries(given)[given.len() - 1
                    - k],
            forall|k: int|
                0 <= k < entries_buffer@.len() ==> (#[trigger] entries_buffer@[k])@
                    == bundle_entries(given)[k],
        decreases reversed@.len(),
    {
        match reversed.pop() {
            Some(entry) => {
                proof {
                    assert(entry == rev[reversed@.len() as int]);
                    assert(reversed@ =~= rev.take(reversed@.len() as int));
                }
                entries_buffer.push(entry);
            },
            None => {},
        }
    }
    proof {
        assert(entries_view(entries_buffer@) =~= bundle_entries(given));
    }
    let created = write_batches(entries_buffer, bundles_per_index, encrypted);
    IndexRewrite { created, deleted: old_index_ids }
}

/// What an entry says of a chunk: that the bundle holds it, with that size.
pub open spec fn lists(entry: IndexEntrySpec, fact: (BundleId, ChunkId, u32)) -> bool {
    entry.bundle_id == fact.0 && entry.chunks.contains(
        ChunkRecord { chunk_id: fact.1, size: fact.2 },
    )
}

/// Everything the entries say.
pub open spec fn logical_entries(entries: Seq<IndexEntrySpec>) -> Set<(BundleId, ChunkId, u32)> {
    Set::new(
        |fact: (BundleId, ChunkId, u32)|
            exists|j: int| 0 <= j < entries.len() && lists(#[trigger] entries[j], fact),
    )
}

/// The logical index: everything the index files say, whatever their names
/// and however the entries are spread over them.
pub open spec fn logical_index(indexes: Seq<Seq<IndexEntrySpec>>) -> Set<(BundleId, ChunkId, u32)> {
    logical_entries(flatten(indexes))
}

/// An entry is among the parts put end to end exactly if it is in one of
/// the parts.
pub proof fn lemma_flatten_contains<T>(parts: Seq<Seq<T>>, x: T)
    ensures
        flatten(parts).contains(x) <==> exists|i: int|
            0 <= i < parts.len() && (#[trigger] parts[i]).contains(x),
    decreases parts.len(),
{
    if parts.len() > 0 {
        let front = parts.drop_last();
        lemma_flatten_contains(front, x);
        let whole = flatten(front) + parts.last();
        if whole.contains(x) {
            let k = choose|k: int| 0 <= k < whole.len() && whole[k] == x;
            if k < flatten(front).len() {
                assert(flatten(front)[k] == x);
                let i = choose|i: int| 0 <= i < front.len() && (#[trigger] front[i]).contains(x);
                assert(parts[i] == front[i]);
            } else {
                assert(parts.last()[k - flatten(front).len()] == x);
                assert(parts[parts.len() - 1].contains(x));
            }
        }
        if exists|i: int| 0 <= i < parts.len() && (#[trigger] parts[i]).contains(x) {
            let i = choose|i: int| 0 <= i < parts.len() && (#[trigger] parts[i]).contains(x);
            if i < front.len() {
                assert(front[i] == parts[i]);
                let k = choose|k: int| 0 <= k < flatten(front).len() && flatten(front)[k] == x;
                assert(whole[k] == x);
            } else {
                let k = choose|k: int| 0 <= k < parts.last().len() && parts.last()[k] == x;
                assert(whole[flatten(front).len() + k] == x);
            }
        }
    }
}

/// The logical index does not depend on the order of the index files, nor
/// on how often a file occurs.
pub proof fn lemma_logical_index_of_files(a: Seq<Seq<IndexEntrySpec>>, b: Seq<Seq<IndexEntrySpec>>)
    requires
        forall|file: Seq<IndexEntrySpec>| a.contains(file) <==> b.contains(file),
    ensures
        logical_index(a) == logical_index(b),
{
    assert forall|fact: (BundleId, ChunkId, u32)|
        logical_index(a).contains(fact) <==> logical_index(b).contains(fact) by {
        if logical_index(a).contains(fact) {
            lemma_logical_one_way(a, b, fact);
        }
        if logical_index(b).contains(fact) {
            lemma_logical_one_way(b, a, fact);
        }
    }
    assert(logical_index(a) =~= logical_index(b));
}

proof fn lemma_logical_one_way(
    a: Seq<Seq<IndexEntrySpec>>,
    b: Seq<Seq<IndexEntrySpec>>,
    fact: (BundleId, ChunkId, u32),
)
    requires
        forall|file: Seq<IndexEntrySpec>| a.contains(file) ==> b.contains(file),
        logical_index(a).contains(fact),
    ensures
        logical_index(b).contains(fact),
{
    let fa = flatten(a);
    let j = choose|j: int| 0 <= j < fa.len() && lists(#[trigger] fa[j], fact);
    let entry = fa[j];
    assert(fa.contains(entry));
    lemma_flatten_contains(a, entry);
    let i = choose|i: int| 0 <= i < a.len() && (#[trigger] a[i]).contains(entry);
    assert(a.contains(a[i]));
    assert(b.contains(a[i]));
    let i2 = choose|i2: int| 0 <= i2 < b.len() && b[i2] == a[i];
    assert(b[i2].contains(entry));
    lemma_flatten_contains(b, entry);
    let fb = flatten(b);
    let j2 = choose|j2: int| 0 <= j2 < fb.len() && fb[j2] == entry;
    assert(lists(fb[j2], fact));
}

/// Balancing leaves the logical index as it was.
pub proof fn lemma_balance_keeps_logical_index(indexes: Seq<Seq<IndexEntrySpec>>, per: nat)
    ensures
        logical_index(balanced(indexes, per)) == logical_index(indexes),
{
    lemma_batches_flatten(flatten(indexes), per);
}

/// Balancing is idempotent: a second run with the same `per`, over the files
/// that the first run left, read in whatever order, yields the same logical
/// index as the first.
pub proof fn lemma_balance_idempotent(
    indexes: Seq<Seq<IndexEntrySpec>>,
    per: nat,
    reread: Seq<Seq<IndexEntrySpec>>,
)
    requires
        forall|file: Seq<IndexEntrySpec>|
            reread.contains(file) <==> balanced(indexes, per).contains(file),
    ensures
        logical_index(balanced(reread, per)) == logical_index(balanced(indexes, per)),
{
    lemma_balance_keeps_logical_index(reread, per);
    lemma_logical_index_of_files(reread, balanced(indexes, per));
}

/// Rebuilding is idempotent: a second run over the same bundles, scanned in
/// whatever order and with whatever index files in place, yields the same
/// logical index as the first.
pub proof fn lemma_rebuild_idempotent(
    bundles: Seq<IndexEntrySpec>,
    rescanned: Seq<IndexEntrySpec>,
    per: nat,
)
    requires
        forall|entry: IndexEntrySpec| rescanned.contains(entry) <==> bundles.contains(entry),
    ensures
        logical_index(batches(rescanned, per)) == logical_index(batches(bundles, per)),
{
    lemma_batches_flatten(rescanned, per);
    lemma_batches_flatten(bundles, per);
    assert forall|fact: (BundleId, ChunkId, u32)|
        logical_entries(rescanned).contains(fact) <==> logical_entries(bundles).contains(
            fact,
        ) by {
        if logical_entries(rescanned).contains(fact) {
            let j = choose|j: int| 0 <= j < rescanned.len() && lists(#[trigger] rescanned[j], fact);
            assert(rescanned.contains(rescanned[j]));
            let k = choose|k: int| 0 <= k < bundles.len() && bundles[k] == rescanned[j];
            assert(lists(bundles[k], fact));
        }
        if logical_entries(bundles).contains(fact) {
            let j = choose|j: int| 0 <= j < bundles.len() && lists(#[trigger] bundles[j], fact);
            assert(bundles.contains(bundles[j]));
            let k = choose|k: int| 0 <= k < rescanned.len() && rescanned[k] == bundles[j];
            assert(lists(rescanned[k], fact));
        }
    }
    assert(logical_entries(rescanned) =~= logical_entries(bundles));
}

/// The parts put end to end list what one of the parts lists.
pub proof fn lemma_flatten_lists(
    indexes: Seq<Seq<IndexEntrySpec>>,
    bundles: Set<BundleId>,
    listing: Listing,
)
    ensures
        in_index(flatten(indexes), bundles, listing) <==> in_files(indexes, bundles, listing),
    decreases indexes.len(),
{
    if indexes.len() > 0 {
        let front = indexes.drop_last();
        let last = indexes.last();
        let joined = flatten(front);
        let whole = joined + last;
        lemma_flatten_lists(front, bundles, listing);
        assert(indexes[indexes.len() - 1] == last);
        if in_index(whole, bundles, listing) {
            let j = choose|j: int|
                0 <= j < whole.len() && bundles.contains(whole[j].bundle_id) && in_entry(
                    #[trigger] whole[j],
                    listing,
                );
            if j < joined.len() {
                assert(joined[j] == whole[j]);
                let i = choose|i: int|
                    0 <= i < front.len() && in_index(#[trigger] front[i], bundles, listing);
                assert(indexes[i] == front[i]);
            } else {
                assert(last[j - joined.len()] == whole[j]);
                assert(in_index(indexes[indexes.len() - 1], bundles, listing));
            }
        }
        if in_files(indexes, bundles, listing) {
            let i = choose|i: int|
                0 <= i < indexes.len() && in_index(#[trigger] indexes[i], bundles, listing);
            if i < front.len() {
                assert(front[i] == indexes[i]);
                let j = choose|j: int|
                    0 <= j < joined.len() && bundles.contains(joined[j].bundle_id) && in_entry(
                        #[trigger] joined[j],
                        listing,
                    );
                assert(whole[j] == joined[j]);
            } else {
                let j = choose|j: int|
                    0 <= j < last.len() && bundles.contains(last[j].bundle_id) && in_entry(
                        #[trigger] last[j],
                        listing,
                    );
                assert(whole[joined.len() + j] == last[j]);
            }
        }
    }
}

/// Balancing keeps the master index's members: whatever the order in which
/// the index files are read, before the run and after, a chunk is in the
/// master index after the run exactly if it was before.
pub proof fn lemma_balance_keeps_membership(
    indexes: Seq<Seq<IndexEntrySpec>>,
    bundles: Set<BundleId>,
    per: nat,
    chunk_id: ChunkId,
)
    ensures
        master_index(balanced(indexes, per), bundles).contains_key(chunk_id) == master_index(
            indexes,
            bundles,
        ).contains_key(chunk_id),
{
    let after = balanced(indexes, per);
    lemma_batches_flatten(flatten(indexes), per);
    lemma_master_index_is_listed(indexes, bundles, chunk_id);
    lemma_master_index_is_listed(after, bundles, chunk_id);
    if master_index(indexes, bundles).contains_key(chunk_id) {
        let listing = (chunk_id, master_index(indexes, bundles)[chunk_id]);
        lemma_flatten_lists(indexes, bundles, listing);
        lemma_flatten_lists(after, bundles, listing);
    }
    if master_index(after, bundles).contains_key(chunk_id) {
        let listing = (chunk_id, master_index(after, bundles)[chunk_id]);
        lemma_flatten_lists(indexes, bundles, listing);
        lemma_flatten_lists(after, bundles, listing);
    }
}

} // verus!
