use rzbackup::atomic_file_writer::{
    lock_begin, lock_error, lock_step, AtomicFileWriter, FileAction, LockAction, LockEvent,
    LockState,
};
use rzbackup::data::Id;
use rzbackup::error::ErrorKind;
use rzbackup::handler::{
    error_response, not_recognised_response, ok_response, parse_command, status_json, Command,
};
use rzbackup::lzma::{
    lzma_decode_error, lzma_init_error, LzmaReader, ReadStep, LZMA_OK, LZMA_RUN,
    LZMA_STREAM_END,
};
use rzbackup::pipeline::{Pipeline, PipelineAction};
use rzbackup::random::{random_id, random_temp_name};
use rzbackup::backup::ChunkStore;
use rzbackup::error::Error;
use rzbackup::scheduler::{
    deliver, Completion, Decision, Delivery, JobStatus, Scheduler, Waiting,
};
use rzbackup::storage::{CacheLookup, StorageActions, StorageManager};
use rzbackup::text::{append_decimal, decimal};

fn id(seed: u8) -> Id {
    let bytes: Vec<u8> = (0..24).map(|i| seed.wrapping_add(i)).collect();
    Id::from_bytes(&bytes).unwrap()
}

#[test]
fn requests_for_one_bundle_are_served_by_one_read() {
    let mut scheduler = Scheduler::new(4);
    let mut starts = 0;
    for ticket in 0..20u64 {
        match scheduler.request(id(ticket as u8), id(100), ticket) {
            Decision::Start(bundle) => {
                assert_eq!(bundle, id(100));
                starts += 1;
            }
            Decision::Join => {}
            Decision::Queued => panic!("a slot was free"),
        }
    }
    assert_eq!(starts, 1);
    let status = scheduler.job_status();
    assert_eq!(status.bundles_loading, vec![id(100)]);
    assert!(status.bundles_to_load.is_empty());
    let done = scheduler.complete(id(100)).unwrap();
    assert_eq!(done.waiters.len(), 20);
    assert_eq!(done.waiters[0], (id(0), 0));
    assert_eq!(done.waiters[19], (id(19), 19));
    assert_eq!(done.promoted, None);
}

#[test]
fn two_restores_of_one_backup_read_each_bundle_once() {
    // chunk c lies in bundle 200 + c / 4; both restores ask for chunks 0..12
    let mut scheduler = Scheduler::new(8);
    let mut reads = 0;
    for chunk in 0..12u8 {
        for restore in 0..2u64 {
            let decision = scheduler.request(id(chunk), id(200 + chunk / 4), restore);
            if let Decision::Start(_) = decision {
                reads += 1;
            }
        }
    }
    assert_eq!(reads, 3);
    assert_eq!(scheduler.job_status().bundles_loading, vec![id(200), id(201), id(202)]);
}

#[test]
fn no_more_reads_run_than_there_are_slots_and_the_queue_is_first_come_first_served() {
    let mut scheduler = Scheduler::new(2);
    assert_eq!(scheduler.max_threads(), 2);
    assert_eq!(scheduler.request(id(1), id(101), 1), Decision::Start(id(101)));
    assert_eq!(scheduler.request(id(2), id(102), 2), Decision::Start(id(102)));
    assert_eq!(scheduler.request(id(3), id(103), 3), Decision::Queued);
    assert_eq!(scheduler.request(id(4), id(104), 4), Decision::Queued);
    assert_eq!(scheduler.request(id(5), id(103), 5), Decision::Queued);
    assert_eq!(scheduler.request(id(6), id(101), 6), Decision::Join);
    assert_eq!(
        scheduler.job_status(),
        JobStatus {
            bundles_loading: vec![id(101), id(102)],
            bundles_to_load: vec![id(103), id(104)],
        }
    );

    // a read ends, with or without success: its waiters come back, the next starts
    let done = scheduler.complete(id(102)).unwrap();
    assert_eq!(
        done,
        Completion {
            waiters: vec![(id(2), 2)],
            promoted: Some(Waiting {
                bundle_id: id(103),
                waiters: vec![(id(3), 3), (id(5), 5)],
            }),
        }
    );
    assert_eq!(
        scheduler.job_status(),
        JobStatus { bundles_loading: vec![id(101), id(103)], bundles_to_load: vec![id(104)] }
    );
    // a request for the bundle that was started joins it
    assert_eq!(scheduler.request(id(7), id(103), 7), Decision::Join);

    let done = scheduler.complete(id(101)).unwrap();
    assert_eq!(done.waiters, vec![(id(1), 1), (id(6), 6)]);
    assert_eq!(done.promoted.unwrap().bundle_id, id(104));
    let done = scheduler.complete(id(103)).unwrap();
    assert_eq!(done.waiters, vec![(id(3), 3), (id(5), 5), (id(7), 7)]);
    assert_eq!(done.promoted, None);
    // a slot is free again
    assert_eq!(scheduler.request(id(8), id(105), 8), Decision::Start(id(105)));
}

#[test]
fn the_end_of_a_read_that_does_not_run_changes_nothing() {
    let mut scheduler = Scheduler::new(1);
    scheduler.request(id(1), id(101), 1);
    scheduler.request(id(2), id(102), 2);
    let before = scheduler.job_status();
    assert_eq!(scheduler.complete(id(102)), None);
    assert_eq!(scheduler.complete(id(109)), None);
    assert_eq!(scheduler.job_status(), before);
}

#[test]
fn a_scheduler_without_slots_queues_everything() {
    let mut scheduler = Scheduler::new(0);
    assert_eq!(scheduler.request(id(1), id(101), 1), Decision::Queued);
    assert_eq!(scheduler.request(id(2), id(101), 2), Decision::Queued);
    assert_eq!(scheduler.job_status().bundles_to_load, vec![id(101)]);
}

#[test]
fn pipeline_prefetches_and_writes_in_order() {
    let mut pipeline = Pipeline::new();
    assert_eq!(pipeline.poll(), PipelineAction::ReadInstruction);
    assert_eq!(pipeline.instruction_read(true), Some(0));
    assert!(pipeline.waits_for_slot());
    // instruction 0 waits for its slot; nothing is read meanwhile
    assert_eq!(pipeline.poll(), PipelineAction::Wait { current: None, future: Some(0) });
    pipeline.slot_granted();
    // with the slot granted the next instruction is read before 0 is written
    assert_eq!(pipeline.poll(), PipelineAction::ReadInstruction);
    assert_eq!(pipeline.instruction_read(true), Some(1));
    assert_eq!(pipeline.poll(), PipelineAction::Wait { current: Some(0), future: Some(1) });
    assert!(pipeline.has_current());
    pipeline.slot_granted();
    assert_eq!(pipeline.poll(), PipelineAction::ReadInstruction);
    assert_eq!(pipeline.instruction_read(true), Some(2));
    // 1 has its slot but 0 is still the one to write
    assert_eq!(pipeline.poll(), PipelineAction::Wait { current: Some(0), future: Some(2) });
    assert_eq!(pipeline.bytes_written(), 0);
    assert_eq!(pipeline.poll(), PipelineAction::Wait { current: Some(1), future: Some(2) });
    pipeline.slot_granted();
    assert_eq!(pipeline.poll(), PipelineAction::ReadInstruction);
    assert_eq!(pipeline.instruction_read(false), None);
    assert_eq!(pipeline.poll(), PipelineAction::Wait { current: Some(1), future: None });
    assert_eq!(pipeline.bytes_written(), 1);
    assert_eq!(pipeline.poll(), PipelineAction::Wait { current: Some(2), future: None });
    assert_eq!(pipeline.bytes_written(), 2);
    assert_eq!(pipeline.poll(), PipelineAction::Finished);
    assert_eq!(pipeline.poll(), PipelineAction::Finished);
}

#[test]
fn pipeline_of_an_empty_stream_is_finished_at_once() {
    let mut pipeline = Pipeline::new();
    assert_eq!(pipeline.poll(), PipelineAction::ReadInstruction);
    assert_eq!(pipeline.instruction_read(false), None);
    assert_eq!(pipeline.poll(), PipelineAction::Finished);
}

fn manager(first: usize, second: usize, third: usize) -> StorageManager {
    StorageManager::new("/cache".to_string(), first, second, third)
}

#[test]
fn cache_looks_in_the_first_tier_then_the_second_then_the_third() {
    let mut cache = manager(2, 2, 2);
    assert_eq!(cache.get("aa"), CacheLookup::Miss);
    let actions = cache.insert("aa", b"plain".to_vec(), b"packed".to_vec());
    assert_eq!(actions, StorageActions { write: Some("/cache/aa".to_string()), delete: None });
    assert_eq!(cache.get("aa"), CacheLookup::Uncompressed(b"plain".to_vec()));

    // two more chunks push "aa" out of both memory tiers and out of the third
    cache.insert("bb", b"1".to_vec(), b"2".to_vec());
    let actions = cache.insert("cc", b"3".to_vec(), b"4".to_vec());
    assert_eq!(actions.write, Some("/cache/cc".to_string()));
    assert_eq!(actions.delete, Some("/cache/aa".to_string()));
    assert_eq!(cache.get("aa"), CacheLookup::Miss);
    assert_eq!(cache.get("bb"), CacheLookup::Uncompressed(b"1".to_vec()));
}

#[test]
fn what_one_tier_drops_stays_in_the_tiers_below() {
    let mut cache = manager(1, 2, 3);
    cache.insert("aa", b"a".to_vec(), b"A".to_vec());
    cache.insert("bb", b"b".to_vec(), b"B".to_vec());
    cache.insert("cc", b"c".to_vec(), b"C".to_vec());
    // first tier holds cc; second bb and cc; third all three
    assert_eq!(cache.get("cc"), CacheLookup::Uncompressed(b"c".to_vec()));
    assert_eq!(cache.get("bb"), CacheLookup::Compressed(b"B".to_vec()));
    assert_eq!(cache.get("aa"), CacheLookup::OnDisk("/cache/aa".to_string()));
    // the caller promotes what it found
    cache.store_compressed("aa".to_string(), b"A".to_vec());
    cache.store_uncompressed("aa".to_string(), b"a".to_vec());
    assert_eq!(cache.get("aa"), CacheLookup::Uncompressed(b"a".to_vec()));
    // cc was dropped from the first tier and from the second, and is still on disk
    assert_eq!(cache.get("cc"), CacheLookup::OnDisk("/cache/cc".to_string()));
    assert_eq!(cache.get("bb"), CacheLookup::Compressed(b"B".to_vec()));
}

#[test]
fn the_entry_used_longest_ago_is_dropped() {
    let mut cache = manager(2, 0, 0);
    cache.store_uncompressed("aa".to_string(), b"a".to_vec());
    cache.store_uncompressed("bb".to_string(), b"b".to_vec());
    // using aa makes bb the one used longest ago
    assert_eq!(cache.get("aa"), CacheLookup::Uncompressed(b"a".to_vec()));
    cache.store_uncompressed("cc".to_string(), b"c".to_vec());
    assert_eq!(cache.get("bb"), CacheLookup::Miss);
    assert_eq!(cache.get("aa"), CacheLookup::Uncompressed(b"a".to_vec()));
    assert_eq!(cache.get("cc"), CacheLookup::Uncompressed(b"c".to_vec()));
    // putting a value in again replaces it and counts as use
    cache.store_uncompressed("aa".to_string(), b"a2".to_vec());
    cache.store_uncompressed("dd".to_string(), b"d".to_vec());
    assert_eq!(cache.get("cc"), CacheLookup::Miss);
    assert_eq!(cache.get("aa"), CacheLookup::Uncompressed(b"a2".to_vec()));
}

#[test]
fn third_tier_says_which_files_to_write_and_delete() {
    let mut cache = manager(0, 0, 2);
    assert_eq!(
        cache.store_on_disk("aa"),
        StorageActions { write: Some("/cache/aa".to_string()), delete: None }
    );
    assert_eq!(
        cache.store_on_disk("bb"),
        StorageActions { write: Some("/cache/bb".to_string()), delete: None }
    );
    // a chunk that is there already is written again and drops nothing
    assert_eq!(
        cache.store_on_disk("aa"),
        StorageActions { write: Some("/cache/aa".to_string()), delete: None }
    );
    // bb is now the one used longest ago
    assert_eq!(
        cache.store_on_disk("cc"),
        StorageActions { write: Some("/cache/cc".to_string()), delete: Some("/cache/bb".to_string()) }
    );
    assert_eq!(cache.get("aa"), CacheLookup::OnDisk("/cache/aa".to_string()));
    assert_eq!(cache.get("bb"), CacheLookup::Miss);
}

#[test]
fn a_tier_that_holds_nothing_keeps_nothing() {
    let mut cache = manager(0, 0, 0);
    let actions = cache.insert("aa", b"a".to_vec(), b"A".to_vec());
    assert_eq!(actions, StorageActions { write: None, delete: None });
    assert_eq!(cache.get("aa"), CacheLookup::Miss);
}

#[test]
fn lock_is_taken_without_waiting_when_a_pause_is_given() {
    let pause = Some(250u64);
    let (state, action) = lock_begin(pause);
    assert_eq!((state, action), (LockState::WholeFile, LockAction::LockWholeFile { wait: false }));
    let (state, action) = lock_step(pause, state, LockEvent::WouldBlock);
    assert_eq!((state, action), (LockState::WholeFile, LockAction::Sleep { millis: 250 }));
    let (state, action) = lock_step(pause, state, LockEvent::Slept);
    assert_eq!((state, action), (LockState::WholeFile, LockAction::LockWholeFile { wait: false }));
    let (state, action) = lock_step(pause, state, LockEvent::Granted);
    assert_eq!((state, action), (LockState::ByteRange, LockAction::LockByteRange));
    let (state, action) = lock_step(pause, state, LockEvent::Granted);
    assert_eq!((state, action), (LockState::Held, LockAction::Proceed));
    assert_eq!(lock_step(pause, state, LockEvent::Refused), (LockState::Held, LockAction::Proceed));
}

#[test]
fn lock_is_waited_for_when_no_pause_is_given() {
    let (state, action) = lock_begin(None);
    assert_eq!((state, action), (LockState::WholeFile, LockAction::LockWholeFile { wait: true }));
    let (state, _) = lock_step(None, state, LockEvent::Granted);
    assert_eq!(lock_step(None, state, LockEvent::Granted), (LockState::Held, LockAction::Proceed));
    assert_eq!(
        lock_step(None, LockState::WholeFile, LockEvent::WouldBlock),
        (LockState::Failed, LockAction::GiveUp)
    );
}

#[test]
fn lock_refused_at_either_step_gives_up() {
    for pause in [None, Some(1u64)] {
        assert_eq!(
            lock_step(pause, LockState::WholeFile, LockEvent::Refused),
            (LockState::Failed, LockAction::GiveUp)
        );
        assert_eq!(
            lock_step(pause, LockState::ByteRange, LockEvent::Refused),
            (LockState::Failed, LockAction::GiveUp)
        );
        assert_eq!(
            lock_step(pause, LockState::ByteRange, LockEvent::WouldBlock),
            (LockState::Failed, LockAction::GiveUp)
        );
        assert_eq!(
            lock_step(pause, LockState::Failed, LockEvent::Granted),
            (LockState::Failed, LockAction::GiveUp)
        );
    }
    let error = lock_error("/repo/lock", "Permission denied");
    assert_eq!(error.kind, ErrorKind::LockError);
    assert_eq!(error.message, "Error obtaining lock on /repo/lock: Permission denied");
}

#[test]
fn staging_touches_nothing_but_tmp() {
    let mut writer = AtomicFileWriter::new("/repo");
    assert_eq!(writer.temp_dir_path(), "/repo/tmp");
    assert!(!writer.changes());
    let path = writer.create("/repo/index/abc".to_string());
    assert!(path.starts_with("/repo/tmp/"));
    let name = &path["/repo/tmp/".len()..];
    assert_eq!(name.len(), 16);
    assert!(name.chars().all(|c| c.is_ascii_alphanumeric()));
    writer.delete("/repo/index/old".to_string());
    assert!(writer.changes());
    // killed now, the rollback deletes the staged file, removes tmp and releases the lock
    assert_eq!(
        writer.rollback(),
        vec![
            FileAction::Unlink(path),
            FileAction::RemoveDir("/repo/tmp".to_string()),
            FileAction::ReleaseLock,
        ]
    );
}

#[test]
fn commit_syncs_renames_and_deletes_in_that_order() {
    let mut writer = AtomicFileWriter::new("/repo");
    assert_eq!(writer.stage("t1".to_string(), "/repo/index/a".to_string()), "/repo/tmp/t1");
    assert_eq!(writer.stage("t2".to_string(), "/repo/bundles/ab/b".to_string()), "/repo/tmp/t2");
    writer.delete("/repo/index/old1".to_string());
    writer.delete("/repo/index/old2".to_string());
    let steps = writer.commit();
    assert_eq!(
        steps,
        vec![
            FileAction::Sync("/repo/tmp/t1".to_string()),
            FileAction::Sync("/repo/tmp/t2".to_string()),
            FileAction::CreateParentDirs("/repo/index/a".to_string()),
            FileAction::Rename("/repo/tmp/t1".to_string(), "/repo/index/a".to_string()),
            FileAction::CreateParentDirs("/repo/bundles/ab/b".to_string()),
            FileAction::Rename("/repo/tmp/t2".to_string(), "/repo/bundles/ab/b".to_string()),
            FileAction::Unlink("/repo/index/old1".to_string()),
            FileAction::Unlink("/repo/index/old2".to_string()),
        ]
    );
    // the lists stay until the caller says that the steps were taken
    assert!(writer.changes());
    assert_eq!(writer.commit(), steps);
    writer.committed();
    assert!(!writer.changes());
    assert!(writer.commit().is_empty());
    assert_eq!(
        writer.rollback(),
        vec![FileAction::RemoveDir("/repo/tmp".to_string()), FileAction::ReleaseLock]
    );
}

#[test]
fn fresh_names_differ() {
    assert_ne!(random_id(), random_id());
    let a = random_temp_name();
    let b = random_temp_name();
    assert_eq!(a.len(), 16);
    assert_ne!(a, b);
}

#[test]
fn decoder_adapter_returns_by_what_the_decoder_said() {
    assert_eq!((LZMA_OK, LZMA_STREAM_END, LZMA_RUN), (0, 1, 0));
    let mut reader = LzmaReader::new();
    assert_eq!(reader.begin_read(), None);
    assert!(reader.input_filled(10).is_ok());
    // the decoder went on and the output buffer has room
    assert_eq!(reader.decoded(LZMA_OK, 100, 40), ReadStep::Again);
    // the output buffer is full
    assert_eq!(reader.decoded(LZMA_OK, 100, 0), ReadStep::Return(100));
    assert_eq!(reader, LzmaReader { error: false, eof: false });
    // the stream ends
    assert_eq!(reader.decoded(LZMA_STREAM_END, 100, 30), ReadStep::Return(70));
    assert_eq!(reader, LzmaReader { error: false, eof: true });
    assert_eq!(reader.begin_read(), Some(0));
}

#[test]
fn decoder_adapter_fails_on_errors_and_on_input_cut_short() {
    let mut reader = LzmaReader::new();
    assert_eq!(reader.decoded(9, 100, 100), ReadStep::Fail);
    assert_eq!(reader, LzmaReader { error: true, eof: false });

    let mut reader = LzmaReader::new();
    let error = reader.input_filled(0).unwrap_err();
    assert_eq!(error.kind, ErrorKind::CorruptFile);
    assert_eq!(error.message, "LZMA stream truncated");
    assert!(reader.error);

    assert_eq!(lzma_decode_error(9).message, "LZMA error: 9");
    assert_eq!(lzma_decode_error(-3).message, "LZMA error: -3");
    assert_eq!(lzma_decode_error(i32::MIN).message, "LZMA error: -2147483648");
    assert_eq!(lzma_init_error(5).message, "Error initialising lzma decoder: 5");
    assert_eq!(lzma_init_error(5).kind, ErrorKind::CorruptFile);
}

#[test]
fn numbers_in_decimal() {
    assert_eq!(decimal(0), "0");
    assert_eq!(decimal(7), "7");
    assert_eq!(decimal(10), "10");
    assert_eq!(decimal(1234567890), "1234567890");
    assert_eq!(decimal(u64::MAX), "18446744073709551615");
    let mut text = "n = ".to_string();
    append_decimal(&mut text, 42);
    assert_eq!(text, "n = 42");
}

#[test]
fn commands_are_read_from_lines() {
    assert_eq!(parse_command(""), Command::Disconnect);
    assert_eq!(parse_command("exit\n"), Command::Exit);
    assert_eq!(parse_command("EXIT\r\n"), Command::Exit);
    assert_eq!(parse_command("Reindex \n"), Command::Reindex);
    assert_eq!(parse_command("status\n"), Command::Status);
    assert_eq!(parse_command("restore /a/b\n"), Command::Restore("/a/b".to_string()));
    assert_eq!(
        parse_command("restore   /name with blanks  \n"),
        Command::Restore("/name with blanks".to_string())
    );
    assert_eq!(parse_command("restore\n"), Command::Restore(String::new()));
    assert_eq!(parse_command("Frobnicate now\n"), Command::NotRecognised("frobnicate".to_string()));
    assert_eq!(parse_command("\n"), Command::NotRecognised(String::new()));
    // a blank comes first: the command is empty
    assert_eq!(parse_command(" exit\n"), Command::NotRecognised(String::new()));
    assert_eq!(parse_command("exit\tnow\n"), Command::NotRecognised("exit\tnow".to_string()));
    assert_eq!(
        parse_command("r\u{e9}store /a\n"),
        Command::NotRecognised("r\u{e9}store /a\n".to_string())
    );
}

#[test]
fn answers_of_the_protocol() {
    assert_eq!(ok_response(), "OK\n");
    assert_eq!(error_response("no such backup"), "ERROR no such backup\n");
    assert_eq!(not_recognised_response("frob"), "ERROR Command not recognised: frob\n");
}

#[test]
fn status_is_one_line_of_json() {
    let none = JobStatus { bundles_loading: vec![], bundles_to_load: vec![] };
    assert_eq!(status_json(&none), "{ \"bundles-loading\": [ ], \"bundles-to-load\": [ ] }\n");
    let mut a = [0u8; 24];
    a[0] = 0xaa;
    let mut b = [0u8; 24];
    b[0] = 0xbb;
    let a = Id::from_bytes(&a).unwrap();
    let b = Id::from_bytes(&b).unwrap();
    let status = JobStatus { bundles_loading: vec![a, b], bundles_to_load: vec![b] };
    let zeros = "0".repeat(46);
    assert_eq!(
        status_json(&status),
        format!(
            "{{ \"bundles-loading\": [ \"aa{z}\", \"bb{z}\" ], \"bundles-to-load\": [ \"bb{z}\" ] }}\n",
            z = zeros
        )
    );
}

#[test]
fn every_waiter_is_given_its_chunk_or_the_failure() {
    let mut store = ChunkStore::new();
    store.insert(id(1), b"one".to_vec());
    store.insert(id(2), b"two".to_vec());
    let waiters = vec![(id(1), 10u64), (id(2), 11), (id(1), 12), (id(3), 13)];
    let deliveries = deliver(&waiters, id(100), &Ok(store));
    assert_eq!(deliveries.len(), 4);
    assert_eq!(deliveries[0], Delivery { waiter: 10, outcome: Ok(b"one".to_vec()) });
    assert_eq!(deliveries[1], Delivery { waiter: 11, outcome: Ok(b"two".to_vec()) });
    assert_eq!(deliveries[2], Delivery { waiter: 12, outcome: Ok(b"one".to_vec()) });
    let missing = deliveries[3].outcome.as_ref().unwrap_err();
    assert_eq!(deliveries[3].waiter, 13);
    assert_eq!(missing.kind, ErrorKind::NotFound);
    assert_eq!(
        missing.message,
        format!("Expected to find chunk {} in bundle {}", id(3).to_hex(), id(100).to_hex())
    );
}

#[test]
fn a_failed_read_gives_every_waiter_the_same_failure() {
    let waiters = vec![(id(1), 10u64), (id(2), 11)];
    let failed = Err(Error::new(ErrorKind::CorruptFile, "Adler32 hash mismatch"));
    let deliveries = deliver(&waiters, id(100), &failed);
    assert_eq!(deliveries.len(), 2);
    for (delivery, ticket) in deliveries.iter().zip([10u64, 11]) {
        assert_eq!(delivery.waiter, ticket);
        let error = delivery.outcome.as_ref().unwrap_err();
        assert_eq!(error.kind, ErrorKind::CorruptFile);
        assert_eq!(
            error.message,
            format!("Error reading bundle {}: Adler32 hash mismatch", id(100).to_hex())
        );
    }
    assert!(deliver(&vec![], id(100), &failed).is_empty());
}
