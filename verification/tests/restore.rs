use crypto::digest::Digest;
use crypto::sha2::Sha256;
use rzbackup::backup::{
    check_backup_name, collect_chunks_from_backup, collect_chunks_from_instructions,
    expand_backup, follow_instruction, follow_instructions, missing_chunk,
    read_and_expand_backup, restore, BackupRounds, ChunkStore,
};
use rzbackup::data::Id;
use rzbackup::digest::{bytes_equal, sha1, sha256, verify_checksum};
use rzbackup::disk_format::{write_frame, AdlerWrite};
use rzbackup::error::ErrorKind;
use rzbackup::gc_bundles::Chunk;
use rzbackup::idmap::IdList;
use rzbackup::index_cache::id_set;
use rzbackup::index_file::{read_index, write_index, RawIndexEntry};
use rzbackup::randaccess::{read_to_end, RandomAccess};
use rzbackup::read::{bundle_write_direct, read_backup_file, read_bundle, read_bundle_head};
use rzbackup::records::{BackupInfo, BackupInstruction, ChunkRecord, StorageInfo};
use rzbackup::repo::{KeyAttempt, MasterIndexEntryData, Repository};
use rzbackup::scheduler::Decision;
use rzbackup::wire::{write_bytes_field, write_varint_field};

fn id(seed: u8) -> Id {
    let bytes: Vec<u8> = (0..24).map(|i| seed.wrapping_add(i)).collect();
    Id::from_bytes(&bytes).unwrap()
}

fn digest_of(data: &[u8]) -> Vec<u8> {
    let mut context = Sha256::new();
    context.input(data);
    let mut out = vec![0u8; 32];
    context.result(&mut out);
    out
}

fn chunk_then_bytes(chunk: u8, bytes: &[u8]) -> BackupInstruction {
    BackupInstruction { chunk_to_emit: Some(id(chunk)), bytes_to_emit: Some(bytes.to_vec()) }
}

fn chunk_only(chunk: u8) -> BackupInstruction {
    BackupInstruction { chunk_to_emit: Some(id(chunk)), bytes_to_emit: None }
}

fn bytes_only(bytes: &[u8]) -> BackupInstruction {
    BackupInstruction { chunk_to_emit: None, bytes_to_emit: Some(bytes.to_vec()) }
}

fn stream(instructions: &[BackupInstruction]) -> Vec<u8> {
    let mut out = Vec::new();
    for instruction in instructions {
        let mut record = Vec::new();
        instruction.write(&mut record);
        write_frame(&mut out, &record);
    }
    out
}

fn store(chunks: &[(u8, &[u8])]) -> ChunkStore {
    let mut store = ChunkStore::new();
    for &(seed, data) in chunks {
        store.insert(id(seed), data.to_vec());
    }
    store
}

fn three_chunks() -> ChunkStore {
    store(&[(0, b"chunk zero;"), (1, b"chunk one;"), (2, b"chunk two;")])
}

fn scenario_instructions() -> Vec<BackupInstruction> {
    vec![chunk_only(0), chunk_then_bytes(1, b"X"), bytes_only(b"END"), chunk_only(2)]
}

const SCENARIO_OUTPUT: &[u8] = b"chunk zero;chunk one;XENDchunk two;";

fn hex(bytes: &[u8]) -> String {
    bytes.iter().map(|b| format!("{:02x}", b)).collect()
}

#[test]
fn sha256_and_sha1_known_values() {
    assert_eq!(
        hex(&sha256(b"abc").unwrap()),
        "ba7816bf8f01cfea414140de5dae2223b00361a396177a9cb410ff61f20015ad"
    );
    assert_eq!(
        hex(&sha256(b"").unwrap()),
        "e3b0c44298fc1c149afbf4c8996fb92427ae41e4649b934ca495991b7852b855"
    );
    assert_eq!(hex(&sha1(b"abc").unwrap()), "a9993e364706816aba3e25717850c26c9cd0d89d");
    assert_eq!(hex(&sha1(b"").unwrap()), "da39a3ee5e6b4b0d3255bfef95601890afd80709");
}

#[test]
fn bytes_are_equal_when_all_of_them_are() {
    assert!(bytes_equal(b"", b""));
    assert!(bytes_equal(b"abc", b"abc"));
    assert!(!bytes_equal(b"abc", b"abd"));
    assert!(!bytes_equal(b"abc", b"ab"));
    assert!(!bytes_equal(b"", b"a"));
}

#[test]
fn checksum_mismatch_names_both_digests() {
    assert!(verify_checksum(&[1, 2], &[1, 2]).is_ok());
    let error = verify_checksum(&[0xab, 0x01], &[0xab, 0x02]).unwrap_err();
    assert_eq!(error.kind, ErrorKind::IntegrityError);
    assert_eq!(error.message, "Expected sha256 checksum ab01 but calculated ab02");
    assert_eq!(error.to_string(), "Expected sha256 checksum ab01 but calculated ab02");
}

#[test]
fn an_instruction_emits_its_chunk_and_then_its_bytes() {
    let store = three_chunks();
    let mut out = b">".to_vec();
    follow_instruction(&chunk_then_bytes(1, b"X"), &store, &mut out).unwrap();
    assert_eq!(out, b">chunk one;X".to_vec());
    follow_instruction(&chunk_only(0), &store, &mut out).unwrap();
    follow_instruction(&bytes_only(b"!"), &store, &mut out).unwrap();
    assert_eq!(out, b">chunk one;Xchunk zero;!".to_vec());
}

#[test]
fn an_instruction_with_neither_chunk_nor_bytes_is_corrupt() {
    let mut out = b"kept".to_vec();
    let empty = BackupInstruction { chunk_to_emit: None, bytes_to_emit: None };
    let error = follow_instruction(&empty, &three_chunks(), &mut out).unwrap_err();
    assert_eq!(error.kind, ErrorKind::CorruptBackup);
    assert_eq!(error.message, "Instruction with neither chunk or bytes");
    assert_eq!(out, b"kept".to_vec());
}

#[test]
fn a_missing_chunk_is_not_found_and_named() {
    let mut out = Vec::new();
    let error = follow_instruction(&chunk_then_bytes(9, b"X"), &three_chunks(), &mut out)
        .unwrap_err();
    assert_eq!(error.kind, ErrorKind::NotFound);
    assert_eq!(error.message, format!("Missing chunk: {}", id(9).to_hex()));
    assert!(out.is_empty());
    assert_eq!(missing_chunk(id(9)).message, error.message);
}

#[test]
fn following_keeps_strict_instruction_order() {
    let input = stream(&scenario_instructions());
    assert_eq!(follow_instructions(&input, &three_chunks()).unwrap(), SCENARIO_OUTPUT.to_vec());
    assert_eq!(follow_instructions(&[], &three_chunks()).unwrap(), Vec::<u8>::new());
}

#[test]
fn following_fails_at_the_first_instruction_that_cannot_be_followed() {
    let empty = BackupInstruction { chunk_to_emit: None, bytes_to_emit: None };
    let input = stream(&[chunk_only(0), chunk_only(8), empty.clone(), chunk_only(9)]);
    let error = follow_instructions(&input, &three_chunks()).unwrap_err();
    assert_eq!(error.kind, ErrorKind::NotFound);
    assert_eq!(error.message, format!("Missing chunk: {}", id(8).to_hex()));
    let input = stream(&[chunk_only(0), empty, chunk_only(8)]);
    assert_eq!(
        follow_instructions(&input, &three_chunks()).unwrap_err().kind,
        ErrorKind::CorruptBackup
    );
    let mut cut = stream(&scenario_instructions());
    cut.pop();
    assert_eq!(follow_instructions(&cut, &three_chunks()).unwrap_err().kind, ErrorKind::CorruptFile);
}

fn two_rounds() -> (Vec<u8>, Vec<u8>) {
    // the inner stream is what the outer stream expands to
    let inner = stream(&scenario_instructions());
    let (front, back) = inner.split_at(10);
    let outer = stream(&[bytes_only(front), bytes_only(back)]);
    (outer, inner)
}

#[test]
fn expansion_feeds_each_round_into_the_next() {
    let (outer, inner) = two_rounds();
    let store = three_chunks();
    assert_eq!(expand_backup(outer.clone(), 0, &store).unwrap(), outer);
    assert_eq!(expand_backup(outer.clone(), 1, &store).unwrap(), inner);
    assert_eq!(expand_backup(outer.clone(), 2, &store).unwrap(), SCENARIO_OUTPUT.to_vec());
    // a third round takes the restored bytes for instructions
    assert_eq!(expand_backup(outer, 3, &store).unwrap_err().kind, ErrorKind::CorruptFile);
}

#[test]
fn backup_names_must_begin_with_a_slash() {
    assert!(check_backup_name("/b").is_ok());
    assert!(check_backup_name("/").is_ok());
    let empty = check_backup_name("").unwrap_err();
    assert_eq!(empty.kind, ErrorKind::BadInput);
    assert_eq!(empty.message, "Backup name must not be empty");
    let relative = check_backup_name("b/c").unwrap_err();
    assert_eq!(relative.kind, ErrorKind::BadInput);
    assert_eq!(relative.message, "Backup name must begin with '/'");
}

fn scenario_backup(iterations: u32, data: Vec<u8>) -> BackupInfo {
    BackupInfo { sha256: digest_of(SCENARIO_OUTPUT), iterations, backup_data: data }
}

#[test]
fn restore_yields_the_bytes_with_the_recorded_digest() {
    let info = scenario_backup(0, stream(&scenario_instructions()));
    let out = restore("/b", &info, &three_chunks()).unwrap();
    assert_eq!(out, SCENARIO_OUTPUT.to_vec());
    assert_eq!(digest_of(&out), info.sha256);
}

#[test]
fn restore_goes_through_the_iterations() {
    let (outer, inner) = two_rounds();
    let info = scenario_backup(1, outer);
    let store = three_chunks();
    assert_eq!(restore("/b", &info, &store).unwrap(), SCENARIO_OUTPUT.to_vec());
    let (last_stream, checksum) = read_and_expand_backup(&info, &store).unwrap();
    assert_eq!(last_stream, inner);
    assert_eq!(checksum, info.sha256);
}

#[test]
fn restore_fails_in_order_name_stream_digest() {
    let store = three_chunks();
    let good = scenario_backup(0, stream(&scenario_instructions()));
    let mut wrong_digest = good.clone();
    wrong_digest.sha256[0] ^= 1;
    let missing = scenario_backup(0, stream(&[chunk_only(0), chunk_only(9)]));

    assert_eq!(restore("", &missing, &store).unwrap_err().kind, ErrorKind::BadInput);
    assert_eq!(restore("b", &wrong_digest, &store).unwrap_err().kind, ErrorKind::BadInput);

    let error = restore("/b", &missing, &store).unwrap_err();
    assert_eq!(error.kind, ErrorKind::NotFound);
    assert!(error.message.contains(&id(9).to_hex()));

    let error = restore("/b", &wrong_digest, &store).unwrap_err();
    assert_eq!(error.kind, ErrorKind::IntegrityError);
    assert_eq!(
        error.message,
        format!(
            "Expected sha256 checksum {} but calculated {}",
            hex(&wrong_digest.sha256),
            hex(&digest_of(SCENARIO_OUTPUT))
        )
    );
}

#[test]
fn chunks_are_collected_from_an_instruction_stream() {
    let mut found = IdList::new();
    found.insert(id(7));
    let input = stream(&[chunk_only(2), bytes_only(b"x"), chunk_then_bytes(0, b"y"), chunk_only(2)]);
    collect_chunks_from_instructions(&mut found, &input).unwrap();
    assert_eq!(found.ids(), &vec![id(7), id(2), id(0)]);
    let mut cut = input.clone();
    cut.pop();
    let error = collect_chunks_from_instructions(&mut found, &cut).unwrap_err();
    assert_eq!(error.kind, ErrorKind::CorruptFile);
    assert_eq!(found.len(), 3);
}

#[test]
fn chunks_are_collected_from_every_round_of_a_backup() {
    // the outer stream refers to chunk 5, whose bytes are part of the inner stream
    let inner = stream(&scenario_instructions());
    let (front, back) = inner.split_at(10);
    let outer = stream(&[bytes_only(front), chunk_only(5)]);
    let mut store = three_chunks();
    store.insert(id(5), back.to_vec());
    let info = scenario_backup(1, outer);
    let mut found = IdList::new();
    collect_chunks_from_backup(&store, &mut found, &info).unwrap();
    assert_eq!(found.ids(), &vec![id(5), id(0), id(1), id(2)]);
    assert_eq!(restore("/b", &info, &store).unwrap(), SCENARIO_OUTPUT.to_vec());

    // without chunk 5 the expansion fails; what was found up to there stays
    let mut found = IdList::new();
    assert!(collect_chunks_from_backup(&three_chunks(), &mut found, &info).is_err());
    assert_eq!(found.ids(), &vec![id(5)]);
}

#[test]
fn cursor_hands_out_the_backup_piece_by_piece() {
    let input = stream(&scenario_instructions());
    let store = three_chunks();
    let mut cursor = RandomAccess::new(&input).unwrap();
    let mut all = Vec::new();
    let mut pieces = 0;
    loop {
        let piece = cursor.read(&store, 4).unwrap();
        if piece.is_empty() {
            break;
        }
        assert!(piece.len() <= 4);
        pieces += 1;
        all.extend(piece);
    }
    assert_eq!(all, SCENARIO_OUTPUT.to_vec());
    assert_eq!(pieces, (SCENARIO_OUTPUT.len() + 3) / 4);
    assert_eq!(cursor.read(&store, 4).unwrap(), Vec::<u8>::new());
    assert_eq!(cursor.read(&store, 0).unwrap(), Vec::<u8>::new());
}

#[test]
fn cursor_reads_up_to_a_failure_and_then_fails() {
    let input = stream(&[bytes_only(b"abc"), bytes_only(b""), chunk_only(9), bytes_only(b"z")]);
    let store = three_chunks();
    let mut cursor = RandomAccess::new(&input).unwrap();
    assert_eq!(cursor.read(&store, 100).unwrap(), b"abc".to_vec());
    let error = cursor.read(&store, 100).unwrap_err();
    assert_eq!(error.kind, ErrorKind::NotFound);
    assert_eq!(cursor.read(&store, 100).unwrap_err().kind, ErrorKind::NotFound);
    assert_eq!(RandomAccess::new(&[1]).err().map(|e| e.kind), Some(ErrorKind::CorruptFile));
}

#[test]
fn reading_to_the_end_is_following_in_one_go() {
    let store = three_chunks();
    let input = stream(&scenario_instructions());
    for buffer_size in [1usize, 3, 10, 65536] {
        assert_eq!(
            read_to_end(&input, &store, buffer_size).unwrap(),
            follow_instructions(&input, &store).unwrap()
        );
    }
    let failing = stream(&[chunk_only(0), chunk_only(9)]);
    assert_eq!(
        read_to_end(&failing, &store, 5).unwrap_err().message,
        follow_instructions(&failing, &store).unwrap_err().message
    );
}

fn plain_info() -> StorageInfo {
    StorageInfo { encryption_key: None }
}

fn keyed_info() -> StorageInfo {
    StorageInfo { encryption_key: Some(b"wrapped key record".to_vec()) }
}

fn open_plain() -> Repository {
    Repository::open(Repository::default_config(), "/repo", plain_info(), KeyAttempt::NoPasswordFile)
        .unwrap()
}

#[test]
fn default_configuration() {
    let config = Repository::default_config();
    assert_eq!(config.max_uncompressed_memory_cache_entries, 2048);
    assert_eq!(config.max_compressed_memory_cache_entries, 16384);
    assert_eq!(config.max_compressed_filesystem_cache_entries, 131072);
    assert!(config.max_threads >= 1);
    assert_eq!(config.filesystem_cache_path, "/tmp/rzbackup-cache");
    assert_eq!(config.work_jobs_total, 0);
    assert_eq!(config.work_jobs_batch, 0);
}

#[test]
fn open_holds_key_and_password_file_against_each_other() {
    let config = Repository::default_config();
    let key = [7u8; 16];

    let plain = Repository::open(config.clone(), "/repo", plain_info(), KeyAttempt::NoPasswordFile)
        .unwrap();
    assert_eq!(plain.encryption_key(), None);
    assert_eq!(plain.path(), "/repo");
    assert_eq!(plain.config(), &config);
    assert!(!plain.storage_info().has_encryption_key());
    assert!(!plain.indexes_loaded());

    let keyed = Repository::open(config.clone(), "/repo", keyed_info(), KeyAttempt::Unwrapped(key))
        .unwrap();
    assert_eq!(keyed.encryption_key(), Some(key));

    let error = Repository::open(config.clone(), "/repo", keyed_info(), KeyAttempt::NoPasswordFile)
        .err()
        .unwrap();
    assert_eq!(error.kind, ErrorKind::ConfigError);
    assert_eq!(error.message, "Required password file not provided");

    let error = Repository::open(config.clone(), "/repo", keyed_info(), KeyAttempt::Incorrect)
        .err()
        .unwrap();
    assert_eq!(error.kind, ErrorKind::AuthError);
    assert_eq!(error.message, "Incorrect password");

    for attempt in [KeyAttempt::Unwrapped(key), KeyAttempt::Incorrect] {
        let error = Repository::open(config.clone(), "/repo", plain_info(), attempt).err().unwrap();
        assert_eq!(error.kind, ErrorKind::ConfigError);
        assert_eq!(error.message, "Unnecessary password file provided");
    }
}

#[test]
fn repository_paths() {
    let repository = open_plain();
    let mut bytes = [0u8; 24];
    bytes[0] = 0xab;
    bytes[23] = 0x01;
    let some = Id::from_bytes(&bytes).unwrap();
    assert_eq!(
        repository.index_path(some),
        "/repo/index/ab0000000000000000000000000000000000000000000001"
    );
    assert_eq!(
        repository.bundle_path(some),
        "/repo/bundles/ab/ab0000000000000000000000000000000000000000000001"
    );
}

fn entry(bundle: u8, chunks: &[(u8, u32)]) -> RawIndexEntry {
    RawIndexEntry {
        bundle_id: id(bundle),
        chunks: chunks.iter().map(|&(c, size)| ChunkRecord { chunk_id: id(c), size }).collect(),
    }
}

/// Builds the files of a small repository, reads them back and restores.
fn end_to_end(encrypted: bool) {
    let prefix: Vec<u8> = if encrypted { vec![0x5a; 16] } else { vec![] };
    let chunks = vec![
        Chunk { chunk_id: id(0), data: b"chunk zero;".to_vec() },
        Chunk { chunk_id: id(1), data: b"chunk one;".to_vec() },
        Chunk { chunk_id: id(2), data: b"chunk two;".to_vec() },
    ];
    // the bundle file; compression is left out here
    let draft = bundle_write_direct(encrypted, &chunks).unwrap();
    let mut writer = draft.writer;
    writer.write(&draft.payload);
    let bundle_file = writer.close();
    // the index file
    let index_file = write_index(encrypted, &vec![entry(50, &[(0, 11), (1, 10), (2, 10)])]);
    // the backup file
    let mut record = Vec::new();
    write_bytes_field(&mut record, 1, &stream(&scenario_instructions()));
    write_varint_field(&mut record, 3, SCENARIO_OUTPUT.len() as u64);
    write_bytes_field(&mut record, 4, &digest_of(SCENARIO_OUTPUT));
    let mut writer = AdlerWrite::new(prefix);
    writer.write_record(&[0x08, 0x01]);
    writer.write_record(&record);
    let backup_file = writer.close();

    // open and load
    let attempt = if encrypted { KeyAttempt::Unwrapped([1u8; 16]) } else { KeyAttempt::NoPasswordFile };
    let info = if encrypted { keyed_info() } else { plain_info() };
    let mut config = Repository::default_config();
    config.max_threads = 2;
    let mut repository = Repository::open(config, "/repo", info, attempt).unwrap();
    let results = vec![read_index(&index_file, encrypted)];
    let report = repository.load_indexes(&results, &id_set(&vec![id(50)])).unwrap();
    assert_eq!((report.loaded, report.errors), (1, 0));
    assert!(repository.has_chunk(id(1)));
    assert_eq!(
        repository.get_index_entry(id(1)).unwrap(),
        MasterIndexEntryData { bundle_id: id(50), size: 10 }
    );

    // ask for the chunks of the backup; one bundle read serves them all
    let backup = read_backup_file(&backup_file, encrypted).unwrap();
    let mut needed = IdList::new();
    collect_chunks_from_instructions(&mut needed, &backup.backup_data).unwrap();
    let mut decisions = Vec::new();
    for (ticket, chunk) in needed.ids().iter().enumerate() {
        decisions.push(repository.get_chunk_async_async(*chunk, ticket as u64).unwrap());
    }
    assert_eq!(decisions, vec![Decision::Start(id(50)), Decision::Join, Decision::Join]);

    // read the bundle and hand its chunks out
    let start = if encrypted { 16 } else { 0 };
    let body = &bundle_file[start..bundle_file.len() - 4];
    let (bundle_info, payload_at) = read_bundle_head(body).unwrap();
    let loaded = read_bundle(&bundle_info, &body[payload_at..]).unwrap();
    let mut store = ChunkStore::new();
    for chunk in loaded {
        store.insert(chunk.chunk_id, chunk.data);
    }
    let done = repository.bundle_loaded(id(50)).unwrap();
    assert_eq!(done.waiters, vec![(id(0), 0), (id(1), 1), (id(2), 2)]);
    assert_eq!(done.promoted, None);
    assert_eq!(repository.get_chunk(&store, id(2)).unwrap(), b"chunk two;".to_vec());

    let out = repository.restore("/b", &backup, &store).unwrap();
    assert_eq!(out, SCENARIO_OUTPUT.to_vec());
    assert_eq!(digest_of(&out), backup.sha256);
    assert_eq!(repository.restore_test(&backup.backup_data, &store).unwrap(), out);
    assert_eq!(repository.follow_instructions(&backup.backup_data, &store).unwrap(), out);
    let mut cursor = repository.open_backup(&backup.backup_data).unwrap();
    assert_eq!(cursor.read(&store, 5).unwrap(), b"chunk".to_vec());
}

#[test]
fn unencrypted_restore_end_to_end() {
    end_to_end(false);
}

#[test]
fn encrypted_restore_end_to_end() {
    end_to_end(true);
}

#[test]
fn a_chunk_of_a_bundle_that_is_gone_is_missing() {
    // the index lists chunk 5 under bundle 1, and bundle 1 is not among the bundles
    let mut repository = open_plain();
    let results = vec![Ok(vec![entry(1, &[(5, 10)]), entry(2, &[(6, 10)])])];
    repository.reload_indexes(&results, &id_set(&vec![id(2)]));
    assert!(!repository.has_chunk(id(5)));
    assert!(repository.has_chunk(id(6)));
    let error = repository.get_chunk_async_async(id(5), 0).unwrap_err();
    assert_eq!(error.kind, ErrorKind::NotFound);
    assert_eq!(error.message, format!("Missing chunk: {}", id(5).to_hex()));
    assert_eq!(repository.get_chunk_async(id(5), 0).unwrap_err().kind, ErrorKind::NotFound);
    assert_eq!(repository.get_index_entry(id(5)).unwrap_err().kind, ErrorKind::NotFound);
    let status = repository.job_status();
    assert!(status.bundles_loading.is_empty() && status.bundles_to_load.is_empty());

    let info = BackupInfo {
        sha256: vec![0u8; 32],
        iterations: 0,
        backup_data: stream(&[chunk_only(5)]),
    };
    let error = repository.restore("/b", &info, &ChunkStore::new()).unwrap_err();
    assert_eq!(error.kind, ErrorKind::NotFound);
    assert!(error.message.contains(&id(5).to_hex()));
    assert_eq!(
        repository.get_chunk(&ChunkStore::new(), id(5)).unwrap_err().kind,
        ErrorKind::NotFound
    );
}

#[test]
fn chunk_store_holds_what_was_put_in() {
    let mut store = ChunkStore::new();
    assert!(!store.contains(&id(1)));
    assert_eq!(store.get(&id(1)), None);
    store.insert(id(1), b"a".to_vec());
    store.insert(id(1), b"b".to_vec());
    assert!(store.contains(&id(1)));
    assert_eq!(store.get(&id(1)), Some(&b"b".to_vec()));
}

#[test]
fn rounds_are_gone_through_one_by_one() {
    let inner = stream(&scenario_instructions());
    let (front, back) = inner.split_at(10);
    let outer = stream(&[bytes_only(front), chunk_only(5), chunk_only(5)]);
    let mut store = three_chunks();
    let info = scenario_backup(1, outer.clone());
    let mut rounds = BackupRounds::new(&info);
    assert!(!rounds.is_last());
    assert_eq!(rounds.stream(), &outer);
    assert_eq!(rounds.chunk_ids().unwrap(), vec![id(5)]);
    // the chunk is not at hand yet: the round cannot be followed, and nothing moves
    assert_eq!(rounds.follow(&store).unwrap_err().kind, ErrorKind::NotFound);
    assert_eq!(rounds.stream(), &outer);
    store.insert(id(5), back[..back.len() / 2].to_vec());
    rounds.follow(&store).unwrap();
    assert!(rounds.is_last());
    // chunk 5 was emitted twice, so the stream of the last round is cut short here
    assert_eq!(rounds.stream().len(), 10 + 2 * (back.len() / 2));

    let plain = BackupRounds::new(&scenario_backup(0, inner.clone()));
    assert!(plain.is_last());
    assert_eq!(plain.chunk_ids().unwrap(), vec![id(0), id(1), id(2)]);
    let broken = BackupRounds::new(&scenario_backup(0, vec![0xff]));
    assert_eq!(broken.chunk_ids().unwrap_err().kind, ErrorKind::CorruptFile);
}

#[test]
fn repository_checks_a_backup_against_its_master_index() {
    let mut repository = open_plain();
    repository.reload_indexes(&vec![Ok(vec![entry(1, &[(5, 10)])])], &id_set(&vec![id(1)]));
    let mut chunks = IdList::new();
    chunks.insert(id(5));
    assert!(!repository.check_backup(true, &chunks).broken());
    chunks.insert(id(6));
    let verdict = repository.check_backup(true, &chunks);
    assert!(verdict.broken());
    assert_eq!(verdict.missing_chunks, vec![id(6)]);
    assert_eq!(verdict.total_chunks, 2);
}
