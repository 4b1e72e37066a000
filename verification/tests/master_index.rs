use rzbackup::data::Id;
use rzbackup::error::{Error, ErrorKind};
use rzbackup::idmap::{IdList, IdMap, IdSet, PairSet};
use rzbackup::index_cache::{
    absorb_index, id_set, index_load_threads, index_load_threads_for, scan_names, IndexCache,
    IndexEntry, LoadReport,
};
use rzbackup::index_file::RawIndexEntry;
use rzbackup::records::ChunkRecord;
use rzbackup::scan::{
    bundle_directory_names, join_backup_name, scan_bundle_files, scan_index_files,
    sum_index_sizes, FoundIndex, ListedFile,
};

fn id(seed: u8) -> Id {
    let bytes: Vec<u8> = (0..24).map(|i| seed.wrapping_add(i)).collect();
    Id::from_bytes(&bytes).unwrap()
}

fn entry(bundle: u8, chunks: &[(u8, u32)]) -> RawIndexEntry {
    RawIndexEntry {
        bundle_id: id(bundle),
        chunks: chunks.iter().map(|&(c, size)| ChunkRecord { chunk_id: id(c), size }).collect(),
    }
}

fn bundles(seeds: &[u8]) -> IdSet {
    let ids: Vec<Id> = seeds.iter().map(|&s| id(s)).collect();
    id_set(&ids)
}

#[test]
fn id_map_inserts_replaces_and_removes() {
    let mut map: IdMap<u32> = IdMap::new();
    assert_eq!(map.get(&id(1)), None);
    assert!(!map.contains_key(&id(1)));
    map.insert(id(1), 10);
    map.insert(id(2), 20);
    map.insert(id(1), 11);
    assert_eq!(map.get(&id(1)), Some(&11));
    assert_eq!(map.get(&id(2)), Some(&20));
    assert_eq!(map.remove(&id(1)), Some(11));
    assert_eq!(map.remove(&id(1)), None);
    assert!(!map.contains_key(&id(1)));
    assert!(map.contains_key(&id(2)));
}

#[test]
fn id_map_tells_identifiers_apart_that_share_their_first_or_last_bytes() {
    let mut a = [0u8; 24];
    let mut b = [0u8; 24];
    a[23] = 1;
    b[23] = 2;
    let same_head_a = Id::from_bytes(&a).unwrap();
    let same_head_b = Id::from_bytes(&b).unwrap();
    let mut c = [0u8; 24];
    c[0] = 1;
    c[23] = 1;
    let same_tail = Id::from_bytes(&c).unwrap();
    let mut map: IdMap<&str> = IdMap::new();
    map.insert(same_head_a, "a");
    map.insert(same_head_b, "b");
    map.insert(same_tail, "c");
    assert_eq!(map.get(&same_head_a), Some(&"a"));
    assert_eq!(map.get(&same_head_b), Some(&"b"));
    assert_eq!(map.get(&same_tail), Some(&"c"));
    assert_eq!(map.remove(&same_head_a), Some("a"));
    assert_eq!(map.get(&same_head_b), Some(&"b"));
}

#[test]
fn id_set_and_pair_set_membership() {
    let mut set = IdSet::new();
    assert!(set.insert(id(1)));
    assert!(!set.insert(id(1)));
    assert!(set.contains(&id(1)));
    assert!(!set.contains(&id(2)));

    let mut pairs = PairSet::new();
    pairs.insert(id(1), id(2));
    pairs.insert(id(1), id(3));
    assert!(pairs.contains(&id(1), &id(2)));
    assert!(pairs.contains(&id(1), &id(3)));
    assert!(!pairs.contains(&id(2), &id(1)));
    assert!(!pairs.contains(&id(1), &id(1)));
}

#[test]
fn id_list_keeps_first_seen_order_without_repeats() {
    let mut list = IdList::new();
    assert!(list.insert(id(3)));
    assert!(list.insert(id(1)));
    assert!(!list.insert(id(3)));
    assert!(list.insert(id(2)));
    assert_eq!(list.ids(), &vec![id(3), id(1), id(2)]);
    assert_eq!(list.len(), 3);
    assert!(list.contains(&id(1)));
    assert!(list.as_set().contains(&id(2)));
    assert!(!list.contains(&id(4)));
}

#[test]
fn index_entry_getters() {
    let entry = IndexEntry::new(id(5), 77);
    assert_eq!(entry.bundle_id(), id(5));
    assert_eq!(entry.size(), 77);
}

#[test]
fn index_load_tasks_exact_values() {
    // seven thirds of one less than the processors, rounded up, and one more
    assert_eq!(index_load_threads_for(1), 1);
    assert_eq!(index_load_threads_for(2), 4);
    assert_eq!(index_load_threads_for(3), 6);
    assert_eq!(index_load_threads_for(4), 8);
    assert_eq!(index_load_threads_for(8), 18);
    assert_eq!(index_load_threads_for(16), 36);
    assert_eq!(index_load_threads_for(usize::MAX), usize::MAX);
    assert!(index_load_threads() >= 1);
}

#[test]
fn cache_is_not_loaded_until_it_is() {
    let mut cache = IndexCache::new();
    assert!(!cache.loaded());
    let results: Vec<Result<Vec<RawIndexEntry>, Error>> = vec![];
    let report = cache.load_if_not_loaded(&results, &bundles(&[]));
    assert_eq!(report, Some(LoadReport { loaded: 0, errors: 0 }));
    assert!(cache.loaded());
    assert!(!cache.has_chunk(&id(1)));
    assert_eq!(cache.get(&id(1)), None);
}

#[test]
fn load_merges_indexes_in_order_last_listing_wins() {
    let results = vec![
        Ok(vec![entry(1, &[(10, 100), (11, 110)]), entry(2, &[(12, 120)])]),
        Ok(vec![entry(3, &[(10, 300)])]),
    ];
    let mut cache = IndexCache::new();
    let report = cache.reload(&results, &bundles(&[1, 2, 3]));
    assert_eq!(report, LoadReport { loaded: 2, errors: 0 });
    assert_eq!(cache.get(&id(10)), Some(IndexEntry::new(id(3), 300)));
    assert_eq!(cache.get(&id(11)), Some(IndexEntry::new(id(1), 110)));
    assert_eq!(cache.get(&id(12)), Some(IndexEntry::new(id(2), 120)));
    assert!(cache.has_chunk(&id(10)));
    assert!(!cache.has_chunk(&id(13)));

    // the other order gives the other winner
    let reversed = vec![
        Ok(vec![entry(3, &[(10, 300)])]),
        Ok(vec![entry(1, &[(10, 100), (11, 110)]), entry(2, &[(12, 120)])]),
    ];
    let mut cache = IndexCache::new();
    cache.reload(&reversed, &bundles(&[1, 2, 3]));
    assert_eq!(cache.get(&id(10)), Some(IndexEntry::new(id(1), 100)));
}

#[test]
fn load_within_one_entry_last_listing_wins() {
    let results = vec![Ok(vec![entry(1, &[(10, 1), (10, 2)])])];
    let mut cache = IndexCache::new();
    cache.reload(&results, &bundles(&[1]));
    assert_eq!(cache.get(&id(10)), Some(IndexEntry::new(id(1), 2)));
}

#[test]
fn load_passes_over_entries_of_bundles_that_do_not_exist() {
    let results = vec![Ok(vec![entry(1, &[(10, 100)]), entry(2, &[(10, 200), (11, 210)])])];
    let mut cache = IndexCache::new();
    cache.reload(&results, &bundles(&[1]));
    assert_eq!(cache.get(&id(10)), Some(IndexEntry::new(id(1), 100)));
    assert_eq!(cache.get(&id(11)), None);
}

#[test]
fn load_counts_failed_index_files_and_goes_on() {
    let results = vec![
        Err(Error::new(ErrorKind::CorruptFile, "bad")),
        Ok(vec![entry(1, &[(10, 100)])]),
        Err(Error::new(ErrorKind::IoError, "gone")),
    ];
    let mut cache = IndexCache::new();
    let report = cache.reload(&results, &bundles(&[1]));
    assert_eq!(report, LoadReport { loaded: 1, errors: 2 });
    assert_eq!(report.message(), Some("2 index files not loaded due to errors".to_string()));
    assert!(cache.has_chunk(&id(10)));
    assert_eq!(LoadReport { loaded: 3, errors: 0 }.message(), None);
}

#[test]
fn load_if_not_loaded_leaves_a_loaded_index_alone() {
    let mut cache = IndexCache::new();
    cache.reload(&vec![Ok(vec![entry(1, &[(10, 100)])])], &bundles(&[1]));
    let other = vec![Ok(vec![entry(1, &[(11, 100)])])];
    assert_eq!(cache.load_if_not_loaded(&other, &bundles(&[1])), None);
    assert!(cache.has_chunk(&id(10)));
    assert!(!cache.has_chunk(&id(11)));
    // a reload replaces it
    cache.reload(&other, &bundles(&[1]));
    assert!(!cache.has_chunk(&id(10)));
    assert!(cache.has_chunk(&id(11)));
}

#[test]
fn absorb_index_adds_to_what_is_there() {
    let mut map: IdMap<IndexEntry> = IdMap::new();
    map.insert(id(10), IndexEntry::new(id(9), 9));
    map.insert(id(20), IndexEntry::new(id(9), 9));
    absorb_index(&mut map, &vec![entry(1, &[(10, 100)])], &bundles(&[1]));
    assert_eq!(map.get(&id(10)), Some(&IndexEntry::new(id(1), 100)));
    assert_eq!(map.get(&id(20)), Some(&IndexEntry::new(id(9), 9)));
}

#[test]
fn scan_picks_identifiers_and_sets_other_names_aside() {
    let names = vec![
        id(1).to_hex(),
        "lost+found".to_string(),
        id(2).to_hex(),
        id(3).to_hex().to_uppercase(),
        String::new(),
        id(1).to_hex(),
    ];
    let found = scan_names(&names);
    assert_eq!(found.ids, vec![id(1), id(2), id(1)]);
    assert_eq!(found.invalid, vec![1, 3, 4]);
    assert_eq!(scan_bundle_files(&names), vec![id(1), id(2), id(1)]);
}

#[test]
fn scan_index_files_keeps_sizes_and_sums_them() {
    let listing = vec![
        ListedFile { file_name: id(1).to_hex(), size: 100 },
        ListedFile { file_name: "README".to_string(), size: 5 },
        ListedFile { file_name: id(2).to_hex(), size: 250 },
    ];
    let found = scan_index_files(&listing);
    assert_eq!(
        found,
        vec![FoundIndex { index_id: id(1), size: 100 }, FoundIndex { index_id: id(2), size: 250 }]
    );
    assert_eq!(sum_index_sizes(&found), Some(350));
    assert_eq!(sum_index_sizes(&vec![]), Some(0));
    let huge = vec![
        FoundIndex { index_id: id(1), size: u64::MAX },
        FoundIndex { index_id: id(2), size: 1 },
    ];
    assert_eq!(sum_index_sizes(&huge), None);
}

#[test]
fn bundle_directories_are_the_256_first_bytes_in_hexadecimal() {
    let names = bundle_directory_names();
    assert_eq!(names.len(), 256);
    assert_eq!(names[0], "00");
    assert_eq!(names[10], "0a");
    assert_eq!(names[16], "10");
    assert_eq!(names[255], "ff");
}

#[test]
fn backup_names_are_joined_with_a_slash_below_the_top() {
    assert_eq!(join_backup_name("", "a"), "a");
    assert_eq!(join_backup_name("dir", "a"), "dir/a");
    assert_eq!(join_backup_name("dir/sub", "a"), "dir/sub/a");
}
