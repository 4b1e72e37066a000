use rzbackup::balance_indexes::{
    balance_indexes, flush_index_entries, rebuild_indexes, split_batches, write_batches,
    IndexRewrite, ScannedBundle,
};
use rzbackup::check_backups::{
    backup_name_matches, check_backup, check_backups, hash_has_prefix, BackupMove,
    BackupVerdict, CheckBackupsReport, CheckedBackup,
};
use rzbackup::data::Id;
use rzbackup::gc_bundles::{
    classify_bundle, compact_bundle, gc_bundles, get_all_index_entries, read_bundles_metadata,
    BundleVerdict, Chunk, Compaction,
};
use rzbackup::gc_indexes::{
    gc_index, gc_indexes, keep_live_chunks, GcIndexesReport, IndexVerdict, LoadedIndex,
};
use rzbackup::idmap::{IdList, IdSet};
use rzbackup::index_cache::{id_set, IndexCache, IndexEntry};
use rzbackup::index_file::{read_index, RawIndexEntry};
use rzbackup::records::ChunkRecord;
use std::collections::BTreeSet;

fn id(seed: u8) -> Id {
    let bytes: Vec<u8> = (0..24).map(|i| seed.wrapping_add(i)).collect();
    Id::from_bytes(&bytes).unwrap()
}

fn records(chunks: &[(u8, u32)]) -> Vec<ChunkRecord> {
    chunks.iter().map(|&(c, size)| ChunkRecord { chunk_id: id(c), size }).collect()
}

fn entry(bundle: u8, chunks: &[(u8, u32)]) -> RawIndexEntry {
    RawIndexEntry { bundle_id: id(bundle), chunks: records(chunks) }
}

fn set(seeds: &[u8]) -> IdSet {
    let ids: Vec<Id> = seeds.iter().map(|&s| id(s)).collect();
    id_set(&ids)
}

fn contents(plan: &IndexRewrite, encrypted: bool) -> Vec<Vec<RawIndexEntry>> {
    plan.created.iter().map(|file| read_index(&file.stream, encrypted).unwrap()).collect()
}

fn logical(indexes: &[Vec<RawIndexEntry>]) -> BTreeSet<(Vec<u8>, Vec<u8>, u32)> {
    let mut facts = BTreeSet::new();
    for index in indexes {
        for entry in index {
            for record in &entry.chunks {
                facts.insert((entry.bundle_id.to_bytes(), record.chunk_id.to_bytes(), record.size));
            }
        }
    }
    facts
}

fn master(indexes: &[Vec<RawIndexEntry>], bundles: &IdSet) -> IndexCache {
    let results = indexes.iter().map(|index| Ok(index.clone())).collect();
    let mut cache = IndexCache::new();
    cache.reload(&results, bundles);
    cache
}

#[test]
fn batches_are_full_but_the_last() {
    let runs = split_batches((0..10).collect::<Vec<u32>>(), 4);
    assert_eq!(runs, vec![vec![0, 1, 2, 3], vec![4, 5, 6, 7], vec![8, 9]]);
    let runs = split_batches((0..8).collect::<Vec<u32>>(), 4);
    assert_eq!(runs, vec![vec![0, 1, 2, 3], vec![4, 5, 6, 7]]);
    let runs = split_batches((0..3).collect::<Vec<u32>>(), 4);
    assert_eq!(runs, vec![vec![0, 1, 2]]);
    let runs = split_batches((0..3).collect::<Vec<u32>>(), 1);
    assert_eq!(runs, vec![vec![0], vec![1], vec![2]]);
    let runs = split_batches(Vec::<u32>::new(), 4);
    assert_eq!(runs, Vec::<Vec<u32>>::new());
}

#[test]
fn batches_of_size_zero_never_fill() {
    let runs = split_batches((0..5).collect::<Vec<u32>>(), 0);
    assert_eq!(runs, vec![vec![0, 1, 2, 3, 4]]);
}

#[test]
fn flush_writes_the_buffer_out_and_empties_it() {
    let mut buffer = vec![entry(1, &[(10, 1)]), entry(2, &[(11, 2)])];
    let expected = buffer.clone();
    let file = flush_index_entries(&mut buffer, false);
    assert!(buffer.is_empty());
    assert_eq!(read_index(&file.stream, false).unwrap(), expected);
    let other = flush_index_entries(&mut vec![entry(1, &[])], false);
    assert_ne!(file.index_id, other.index_id);
}

#[test]
fn write_batches_writes_one_file_per_run() {
    let entries: Vec<RawIndexEntry> = (0..5).map(|b| entry(b, &[(100 + b, 1)])).collect();
    let created = write_batches(entries.clone(), 2, true);
    assert_eq!(created.len(), 3);
    assert_eq!(read_index(&created[0].stream, true).unwrap(), entries[0..2].to_vec());
    assert_eq!(read_index(&created[1].stream, true).unwrap(), entries[2..4].to_vec());
    assert_eq!(read_index(&created[2].stream, true).unwrap(), entries[4..5].to_vec());
}

#[test]
fn balance_joins_small_indexes_and_deletes_every_old_one() {
    let old_ids: Vec<Id> = (0..100).map(id).collect();
    let old: Vec<Vec<RawIndexEntry>> =
        (0..100).map(|b| vec![entry(b, &[(b.wrapping_add(100), 1)])]).collect();
    let bundles = set(&(0..100).collect::<Vec<u8>>());
    let before = master(&old, &bundles);

    let plan = balance_indexes(old_ids.clone(), old.clone(), 10, false);
    assert_eq!(plan.deleted, old_ids);
    assert_eq!(plan.created.len(), 10);
    let balanced = contents(&plan, false);
    for index in &balanced {
        assert_eq!(index.len(), 10);
    }
    assert_eq!(balanced.concat(), old.concat());
    assert_eq!(logical(&balanced), logical(&old));

    // rebuilding from the same bundles, four to an index
    let scanned: Vec<ScannedBundle> = (0..100)
        .map(|b| ScannedBundle { bundle_id: id(b), chunks: records(&[(b.wrapping_add(100), 1)]) })
        .collect();
    let balanced_ids: Vec<Id> = plan.created.iter().map(|file| file.index_id).collect();
    let rebuilt_plan = rebuild_indexes(scanned, balanced_ids.clone(), 4, false);
    assert_eq!(rebuilt_plan.deleted, balanced_ids);
    assert_eq!(rebuilt_plan.created.len(), 25);
    let rebuilt = contents(&rebuilt_plan, false);
    assert_eq!(logical(&rebuilt), logical(&old));

    // membership in the master index is the same after both
    let after_balance = master(&balanced, &bundles);
    let after_rebuild = master(&rebuilt, &bundles);
    for seed in 0..=255u8 {
        let chunk = id(seed);
        assert_eq!(after_balance.has_chunk(&chunk), before.has_chunk(&chunk));
        assert_eq!(after_rebuild.has_chunk(&chunk), before.has_chunk(&chunk));
        assert_eq!(after_balance.get(&chunk), before.get(&chunk));
    }
}

#[test]
fn rebuild_rounds_the_number_of_indexes_up() {
    for (bundles, per, expected) in [(0u8, 4u64, 0usize), (1, 4, 1), (4, 4, 1), (5, 4, 2), (9, 4, 3)] {
        let scanned: Vec<ScannedBundle> = (0..bundles)
            .map(|b| ScannedBundle { bundle_id: id(b), chunks: records(&[(b, 1)]) })
            .collect();
        let plan = rebuild_indexes(scanned, vec![], per, false);
        assert_eq!(plan.created.len(), expected);
    }
}

#[test]
fn balance_twice_gives_the_same_logical_index() {
    let old = vec![
        vec![entry(1, &[(10, 1), (11, 2)]), entry(2, &[(12, 3)])],
        vec![],
        vec![entry(3, &[(13, 4)]), entry(4, &[]), entry(5, &[(14, 5), (15, 6)])],
    ];
    let first = balance_indexes(vec![id(91), id(92), id(93)], old.clone(), 2, false);
    let once = contents(&first, false);
    assert_eq!(once.iter().map(|index| index.len()).collect::<Vec<_>>(), vec![2, 2, 1]);
    // the second run may find the files in another order
    let mut reread = once.clone();
    reread.reverse();
    let ids: Vec<Id> = first.created.iter().map(|file| file.index_id).collect();
    let second = balance_indexes(ids, reread, 2, false);
    let twice = contents(&second, false);
    assert_eq!(logical(&twice), logical(&once));
    assert_eq!(logical(&once), logical(&old));
}

#[test]
fn rebuild_twice_gives_the_same_logical_index() {
    let scan = |order: &[u8]| -> Vec<ScannedBundle> {
        order
            .iter()
            .map(|&b| ScannedBundle { bundle_id: id(b), chunks: records(&[(b + 50, b as u32)]) })
            .collect()
    };
    let first = contents(&rebuild_indexes(scan(&[1, 2, 3, 4, 5]), vec![], 2, false), false);
    let second = contents(&rebuild_indexes(scan(&[5, 3, 1, 2, 4]), vec![id(7)], 2, false), false);
    assert_eq!(logical(&first), logical(&second));
    assert_eq!(first.len(), 3);
    assert_eq!(second.len(), 3);
}

#[test]
fn keep_live_chunks_keeps_order() {
    let chunks = records(&[(1, 10), (2, 20), (3, 30), (1, 11)]);
    assert_eq!(keep_live_chunks(&chunks, &set(&[1, 3])), records(&[(1, 10), (3, 30), (1, 11)]));
    assert_eq!(keep_live_chunks(&chunks, &set(&[])), vec![]);
    assert_eq!(keep_live_chunks(&chunks, &set(&[1, 2, 3])), chunks);
}

#[test]
fn gc_index_keeps_an_index_whose_chunks_are_all_live() {
    let index = vec![entry(1, &[(10, 1), (11, 1)]), entry(2, &[])];
    assert_eq!(gc_index(&index, &set(&[10, 11, 12])), (IndexVerdict::Keep, 0));
    assert_eq!(gc_index(&vec![], &set(&[])), (IndexVerdict::Keep, 0));
}

#[test]
fn gc_index_cuts_entries_down_and_leaves_out_those_that_keep_nothing() {
    let index = vec![
        entry(1, &[(10, 1), (11, 1), (12, 1)]),
        entry(2, &[(13, 1), (14, 1)]),
        entry(3, &[(15, 1)]),
        entry(4, &[]),
    ];
    let (verdict, removed) = gc_index(&index, &set(&[10, 12, 15]));
    assert_eq!(
        verdict,
        IndexVerdict::Rewrite(vec![entry(1, &[(10, 1), (12, 1)]), entry(3, &[(15, 1)])])
    );
    assert_eq!(removed, 3);
    let (verdict, removed) = gc_index(&index, &set(&[]));
    assert_eq!(verdict, IndexVerdict::Rewrite(vec![]));
    assert_eq!(removed, 6);
}

fn loaded(seed: u8, entries: Vec<RawIndexEntry>) -> LoadedIndex {
    LoadedIndex { index_id: id(seed), entries }
}

#[test]
fn gc_indexes_rewrites_deletes_and_counts() {
    let old = vec![
        loaded(201, vec![entry(1, &[(10, 1), (11, 1)])]),
        loaded(202, vec![entry(2, &[(12, 1), (13, 1)]), entry(3, &[(14, 1)])]),
        loaded(203, vec![entry(4, &[(15, 1)])]),
    ];
    let outcome = gc_indexes(&old, &set(&[10, 11, 12]), false);
    assert_eq!(outcome.plan.deleted, vec![id(202), id(203)]);
    assert_eq!(contents(&outcome.plan, false), vec![vec![entry(2, &[(12, 1)])]]);
    assert_eq!(
        outcome.report,
        GcIndexesReport { chunks_removed: 3, indexes_modified: 1, indexes_removed: 1 }
    );
    assert_eq!(
        outcome.report.message(),
        "Removed 3 chunks from 1 modified and 1 deleted indexes"
    );
}

#[test]
fn gc_indexes_with_everything_live_changes_nothing() {
    let old = vec![loaded(201, vec![entry(1, &[(10, 1)])]), loaded(202, vec![])];
    let outcome = gc_indexes(&old, &set(&[10]), true);
    assert!(outcome.plan.deleted.is_empty());
    assert!(outcome.plan.created.is_empty());
    assert_eq!(
        outcome.report,
        GcIndexesReport { chunks_removed: 0, indexes_modified: 0, indexes_removed: 0 }
    );
}

#[test]
fn gc_indexes_keeps_every_live_chunk_where_it_was() {
    let old = vec![
        loaded(201, vec![entry(1, &[(10, 1), (11, 2)]), entry(2, &[(12, 3), (10, 4)])]),
        loaded(202, vec![entry(3, &[(13, 5)]), entry(9, &[(10, 6)])]),
        loaded(203, vec![entry(4, &[(11, 7), (14, 8)])]),
    ];
    let live = set(&[10, 11, 13]);
    let bundles = set(&[1, 2, 3, 4]);
    let before = master(&old.iter().map(|i| i.entries.clone()).collect::<Vec<_>>(), &bundles);
    let outcome = gc_indexes(&old, &live, false);
    // the second file lists live chunks only and stays; the others are rewritten,
    // and each new file is read in the place of the file it came from
    assert_eq!(outcome.plan.deleted, vec![id(201), id(203)]);
    let rewritten = contents(&outcome.plan, false);
    assert_eq!(rewritten.len(), 2);
    let files_after = vec![rewritten[0].clone(), old[1].entries.clone(), rewritten[1].clone()];
    let after = master(&files_after, &bundles);
    for seed in [10u8, 11, 13] {
        assert_eq!(after.get(&id(seed)), before.get(&id(seed)));
        assert!(after.has_chunk(&id(seed)));
    }
    assert_eq!(before.get(&id(10)), Some(IndexEntry::new(id(2), 4)));
    for seed in [12u8, 14] {
        assert!(before.has_chunk(&id(seed)));
        assert!(!after.has_chunk(&id(seed)));
    }
}

fn scanned(bundle: u8, chunks: &[u8]) -> ScannedBundle {
    ScannedBundle {
        bundle_id: id(bundle),
        chunks: chunks.iter().map(|&c| ChunkRecord { chunk_id: id(c), size: 1 }).collect(),
    }
}

#[test]
fn index_pairs_are_collected_from_all_indexes() {
    let pairs = get_all_index_entries(&vec![
        loaded(201, vec![entry(1, &[(10, 1), (11, 1)])]),
        loaded(202, vec![entry(2, &[(10, 1)])]),
    ]);
    assert!(pairs.contains(&id(1), &id(10)));
    assert!(pairs.contains(&id(1), &id(11)));
    assert!(pairs.contains(&id(2), &id(10)));
    assert!(!pairs.contains(&id(2), &id(11)));
    assert!(!pairs.contains(&id(10), &id(1)));
}

#[test]
fn bundles_are_deleted_compacted_or_kept() {
    let indexes = vec![loaded(
        201,
        vec![entry(1, &[(10, 1), (11, 1)]), entry(2, &[(12, 1)]), entry(4, &[(10, 1), (13, 1)])],
    )];
    let bundles = vec![
        scanned(1, &[10, 11]),         // all listed and new: kept
        scanned(2, &[12, 20]),         // 20 is listed nowhere: compacted
        scanned(3, &[21, 22]),         // nothing listed: deleted
        scanned(4, &[10, 13]),         // 10 was kept by bundle 1: compacted
        scanned(5, &[]),               // holds nothing: deleted
    ];
    let plan = gc_bundles(&indexes, &bundles);
    assert_eq!(plan.bundles_to_delete, vec![id(3), id(5)]);
    assert_eq!(
        plan.bundles_to_compact,
        vec![
            Compaction { bundle_id: id(2), keep: vec![0] },
            Compaction { bundle_id: id(4), keep: vec![1] },
        ]
    );
}

#[test]
fn a_chunk_listed_under_another_bundle_only_does_not_count() {
    let indexes = vec![loaded(201, vec![entry(1, &[(10, 1)])])];
    let plan = gc_bundles(&indexes, &vec![scanned(2, &[10]), scanned(1, &[10])]);
    assert_eq!(plan.bundles_to_delete, vec![id(2)]);
    assert!(plan.bundles_to_compact.is_empty());
}

#[test]
fn a_chunk_that_a_bundle_holds_twice_is_kept_once() {
    let indexes = vec![loaded(201, vec![entry(1, &[(10, 1), (11, 1)])])];
    let plan = gc_bundles(&indexes, &vec![scanned(1, &[10, 11, 10])]);
    assert_eq!(plan.bundles_to_compact, vec![Compaction { bundle_id: id(1), keep: vec![0, 1] }]);
}

#[test]
fn after_gc_bundles_no_chunk_is_held_twice_and_no_bundle_is_without_listed_chunks() {
    let indexes = vec![
        loaded(201, vec![entry(1, &[(10, 1), (11, 1)]), entry(2, &[(10, 1), (12, 1)])]),
        loaded(202, vec![entry(3, &[(11, 1), (12, 1)]), entry(4, &[(14, 1)])]),
    ];
    let bundles = vec![
        scanned(1, &[10, 11, 30]),
        scanned(2, &[10, 12, 12]),
        scanned(3, &[11, 12]),
        scanned(4, &[14]),
        scanned(5, &[31]),
    ];
    let pairs = get_all_index_entries(&indexes);
    let plan = read_bundles_metadata(&bundles, &pairs);
    // what each bundle holds afterwards
    let mut after: Vec<(Id, Vec<Id>)> = Vec::new();
    for bundle in &bundles {
        if plan.bundles_to_delete.contains(&bundle.bundle_id) {
            continue;
        }
        let kept: Vec<Id> =
            match plan.bundles_to_compact.iter().find(|c| c.bundle_id == bundle.bundle_id) {
                Some(compaction) => {
                    compaction.keep.iter().map(|&p| bundle.chunks[p].chunk_id).collect()
                }
                None => bundle.chunks.iter().map(|r| r.chunk_id).collect(),
            };
        after.push((bundle.bundle_id, kept));
    }
    let mut seen = BTreeSet::new();
    for (bundle_id, chunks) in &after {
        assert!(!chunks.is_empty());
        for chunk in chunks {
            assert!(pairs.contains(bundle_id, chunk));
            assert!(seen.insert(chunk.to_bytes()), "a chunk is held twice");
        }
    }
    // every chunk listed under a bundle that held it is still held
    for seed in [10u8, 11, 12, 14] {
        assert!(seen.contains(&id(seed).to_bytes()));
    }
    assert_eq!(plan.bundles_to_delete, vec![id(3), id(5)]);
}

#[test]
fn classify_one_bundle_with_what_was_seen_before() {
    let bundles = vec![scanned(1, &[10, 11]), scanned(2, &[10, 12])];
    let pairs = get_all_index_entries(&vec![loaded(
        201,
        vec![entry(1, &[(10, 1), (11, 1)]), entry(2, &[(10, 1), (12, 1)])],
    )]);
    let mut seen = IdSet::new();
    assert_eq!(classify_bundle(&bundles, 0, &pairs, &mut seen), BundleVerdict::Keep);
    assert!(seen.contains(&id(10)) && seen.contains(&id(11)));
    assert_eq!(classify_bundle(&bundles, 1, &pairs, &mut seen), BundleVerdict::Compact(vec![1]));
    assert!(seen.contains(&id(12)));
}

#[test]
fn compaction_selects_the_chunks_at_the_kept_positions() {
    let chunks = vec![
        Chunk { chunk_id: id(1), data: b"one".to_vec() },
        Chunk { chunk_id: id(2), data: b"two".to_vec() },
        Chunk { chunk_id: id(3), data: b"three".to_vec() },
    ];
    assert_eq!(
        compact_bundle(&chunks, &vec![0, 2]),
        Some(vec![chunks[0].clone(), chunks[2].clone()])
    );
    assert_eq!(compact_bundle(&chunks, &vec![]), Some(vec![]));
    assert_eq!(compact_bundle(&chunks, &vec![1, 3]), None);
}

#[test]
fn gc_after_backups_were_deleted_drops_index_entries_and_bundle() {
    // bundle 7 holds chunks 70 and 71, which only deleted backups referred to
    let indexes = vec![loaded(
        201,
        vec![entry(6, &[(60, 1)]), entry(7, &[(70, 1), (71, 1)]), entry(8, &[(80, 1)])],
    )];
    let live = set(&[60, 80]);
    let outcome = gc_indexes(&indexes, &live, false);
    let new_entries = contents(&outcome.plan, false);
    assert_eq!(new_entries, vec![vec![entry(6, &[(60, 1)]), entry(8, &[(80, 1)])]]);
    assert_eq!(outcome.plan.deleted, vec![id(201)]);
    assert_eq!(outcome.report.chunks_removed, 2);

    let new_indexes: Vec<LoadedIndex> = outcome
        .plan
        .created
        .iter()
        .zip(new_entries)
        .map(|(file, entries)| LoadedIndex { index_id: file.index_id, entries })
        .collect();
    let bundles = vec![scanned(6, &[60]), scanned(7, &[70, 71]), scanned(8, &[80])];
    let plan = gc_bundles(&new_indexes, &bundles);
    assert_eq!(plan.bundles_to_delete, vec![id(7)]);
    assert!(plan.bundles_to_compact.is_empty());
}

#[test]
fn hash_prefix_is_matched_against_lowercase_hexadecimal() {
    let digest = [0xa9u8, 0x99, 0x3e];
    assert!(hash_has_prefix(&digest, ""));
    assert!(hash_has_prefix(&digest, "a"));
    assert!(hash_has_prefix(&digest, "a9993e"));
    assert!(!hash_has_prefix(&digest, "a9993e0"));
    assert!(!hash_has_prefix(&digest, "A9"));
    assert!(!hash_has_prefix(&digest, "9"));
    assert!(!hash_has_prefix(&digest, "\u{e9}"));
}

#[test]
fn backups_are_filtered_by_the_sha1_of_their_name() {
    // SHA-1 of "abc" is a9993e364706816aba3e25717850c26c9cd0d89d
    assert!(backup_name_matches(b"abc", &None));
    assert!(backup_name_matches(b"abc", &Some("a9993e36".to_string())));
    assert!(backup_name_matches(
        b"abc",
        &Some("a9993e364706816aba3e25717850c26c9cd0d89d".to_string())
    ));
    assert!(!backup_name_matches(b"abc", &Some("b".to_string())));
    assert!(!backup_name_matches(b"abd", &Some("a9993e36".to_string())));
    // SHA-1 of the empty name is da39a3ee5e6b4b0d3255bfef95601890afd80709
    assert!(backup_name_matches(b"", &Some("da39a3ee".to_string())));
}

fn list(seeds: &[u8]) -> IdList {
    let mut list = IdList::new();
    for &seed in seeds {
        list.insert(id(seed));
    }
    list
}

#[test]
fn a_backup_is_broken_if_unexpanded_or_missing_chunks() {
    let index = master(&[vec![entry(1, &[(10, 1), (11, 1)])]], &set(&[1]));
    let intact = check_backup(true, &list(&[10, 11]), &index);
    assert_eq!(
        intact,
        BackupVerdict { expanded: true, missing_chunks: vec![], total_chunks: 2 }
    );
    assert!(!intact.broken());
    assert_eq!(intact.message("a"), None);

    let missing = check_backup(true, &list(&[10, 12, 11, 13]), &index);
    assert_eq!(missing.missing_chunks, vec![id(12), id(13)]);
    assert!(missing.broken());
    assert_eq!(
        missing.message("dir/a"),
        Some("Backup dir/a is missing 2 out of 4 chunks".to_string())
    );

    let unexpanded = check_backup(false, &list(&[10]), &index);
    assert!(unexpanded.broken());
    assert_eq!(
        unexpanded.message("a"),
        Some("Backup a could not be expanded due to missing chunks".to_string())
    );
    assert!(!check_backup(true, &list(&[]), &index).broken());
}

fn checked(names: &[(&str, bool)]) -> Vec<CheckedBackup> {
    names
        .iter()
        .map(|&(name, broken)| CheckedBackup { backup_name: name.to_string(), broken })
        .collect()
}

#[test]
fn check_backups_moves_nothing_unless_told_to() {
    let backups = checked(&[("a", false), ("dir/b", true), ("c", true)]);
    let report = check_backups("/repo", &backups, false);
    assert_eq!(
        report,
        CheckBackupsReport { checked_backup_count: 3, error_backup_count: 2, moves: vec![] }
    );
    assert_eq!(report.message(false), "Found 2 backups with errors out of 3 checked");
}

#[test]
fn check_backups_moves_broken_backups_to_the_same_path_below_backups_broken() {
    let backups = checked(&[("a", false), ("dir/b", true), ("c", true)]);
    let report = check_backups("/repo", &backups, true);
    assert_eq!(
        report.moves,
        vec![
            BackupMove {
                from: "/repo/backups/dir/b".to_string(),
                to: "/repo/backups-broken/dir/b".to_string(),
            },
            BackupMove {
                from: "/repo/backups/c".to_string(),
                to: "/repo/backups-broken/c".to_string(),
            },
        ]
    );
    assert_eq!(report.error_backup_count, 2);
    assert_eq!(report.message(true), "Moved 2 backups with errors out of 3 checked");
}

#[test]
fn check_backups_with_all_intact() {
    let report = check_backups("/repo", &checked(&[("a", false), ("b", false)]), true);
    assert!(report.moves.is_empty());
    assert_eq!(report.error_backup_count, 0);
    assert_eq!(report.message(true), "All chunks present for 2 backups checked");
    let none = check_backups("/repo", &vec![], false);
    assert_eq!(none.message(false), "All chunks present for 0 backups checked");
}
