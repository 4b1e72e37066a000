use rzbackup::backup::read_instructions;
use rzbackup::data::Id;
use rzbackup::disk_format::{
    open_envelope, read_frame, seal, unseal, wrap_writer, write_frame, AdlerWrite,
};
use rzbackup::error::ErrorKind;
use rzbackup::gc_bundles::Chunk;
use rzbackup::index_file::{
    parse_index, read_entry, read_file_header, read_index, write_index, write_index_to,
    RawIndexEntry,
};
use rzbackup::read::{
    bundle_write_direct, read_backup_file, read_bundle, read_bundle_head, read_bundle_info,
    read_single_record, read_storage_info,
};
use rzbackup::records::{BackupInfo, BackupInstruction, BundleInfo, ChunkRecord};
use rzbackup::wire::{write_bytes_field, write_varint_field};

fn id(seed: u8) -> Id {
    let bytes: Vec<u8> = (0..24).map(|i| seed.wrapping_add(i)).collect();
    Id::from_bytes(&bytes).unwrap()
}

fn entry(bundle: u8, chunks: &[(u8, u32)]) -> RawIndexEntry {
    RawIndexEntry {
        bundle_id: id(bundle),
        chunks: chunks.iter().map(|&(c, size)| ChunkRecord { chunk_id: id(c), size }).collect(),
    }
}

fn sealed(body: &[u8]) -> Vec<u8> {
    let mut stream = body.to_vec();
    seal(&mut stream);
    stream
}

#[test]
fn adler32_known_values_close_the_stream_least_significant_byte_first() {
    assert_eq!(sealed(b""), vec![0x01, 0x00, 0x00, 0x00]);
    assert_eq!(sealed(b"a"), vec![b'a', 0x62, 0x00, 0x62, 0x00]);
    assert_eq!(sealed(b"abc"), vec![b'a', b'b', b'c', 0x27, 0x01, 0x4d, 0x02]);
    let mut expected = b"message digest".to_vec();
    expected.extend([0x86, 0x05, 0x75, 0x29]);
    assert_eq!(sealed(b"message digest"), expected);
}

#[test]
fn adler32_of_a_long_stream() {
    let stream = sealed(&[255u8; 64000]);
    assert_eq!(&stream[64000..], &[0x98, 0x14, 0x25, 0xd6]);
}

#[test]
fn unseal_accepts_exactly_what_seal_made() {
    let stream = sealed(b"abc");
    assert_eq!(unseal(&stream), Some(3));
    let mut wrong = stream.clone();
    wrong[1] ^= 1;
    assert_eq!(unseal(&wrong), None);
    let mut wrong = stream.clone();
    wrong[6] ^= 0x80;
    assert_eq!(unseal(&wrong), None);
    // byte order matters
    assert_eq!(unseal(&[b'a', b'b', b'c', 0x02, 0x4d, 0x01, 0x27]), None);
    assert_eq!(unseal(&[1, 0, 0]), None);
    assert_eq!(unseal(&[]), None);
    assert_eq!(unseal(&[1, 0, 0, 0]), Some(0));
}

#[test]
fn envelope_skips_the_initialisation_vector_where_encrypted() {
    let body: Vec<u8> = (0..40).collect();
    let stream = sealed(&body);
    assert_eq!(open_envelope(&stream, false), Some((0, 40)));
    assert_eq!(open_envelope(&stream, true), Some((16, 40)));
    let short = sealed(&[0u8; 15]);
    assert_eq!(open_envelope(&short, false), Some((0, 15)));
    assert_eq!(open_envelope(&short, true), None);
    let exact = sealed(&[0u8; 16]);
    assert_eq!(open_envelope(&exact, true), Some((16, 16)));
}

#[test]
fn writer_starts_with_a_fresh_vector_of_16_bytes_where_encrypted() {
    assert_eq!(wrap_writer(false).byte_count(), 0);
    let first = wrap_writer(true);
    assert_eq!(first.byte_count(), 16);
    let second = wrap_writer(true);
    let a = first.close();
    let b = second.close();
    assert_eq!(a.len(), 20);
    assert_eq!(unseal(&a), Some(16));
    assert_ne!(a, b);
}

#[test]
fn adler_write_collects_counts_and_closes() {
    let mut writer = AdlerWrite::new(vec![1, 2]);
    assert_eq!(writer.byte_count(), 2);
    writer.write(b"abc");
    writer.write_record(b"xy");
    assert_eq!(writer.byte_count(), 8);
    let hash = writer.hash();
    let stream = writer.close();
    assert_eq!(&stream[..8], &[1, 2, b'a', b'b', b'c', 2, b'x', b'y']);
    assert_eq!(&stream[8..], &hash.to_le_bytes());
    assert_eq!(unseal(&stream), Some(8));
    assert_eq!(AdlerWrite::new(vec![]).hash(), 1);
    let mut abc = AdlerWrite::new(vec![]);
    abc.write(b"abc");
    assert_eq!(abc.hash(), 0x024d0127);
}

#[test]
fn frames_carry_their_length() {
    let mut out = Vec::new();
    write_frame(&mut out, b"abc");
    write_frame(&mut out, b"");
    write_frame(&mut out, &[7u8; 200]);
    assert_eq!(&out[..6], &[3, b'a', b'b', b'c', 0, 0xc8]);
    assert_eq!(read_frame(&out, 0), Some((1, 4)));
    assert_eq!(read_frame(&out, 4), Some((5, 5)));
    assert_eq!(read_frame(&out, 5), Some((7, 207)));
    assert_eq!(read_frame(&out, 207), None);
    // a record that is cut short
    assert_eq!(read_frame(&[3, b'a', b'b'], 0), None);
}

#[test]
fn index_exact_bytes_for_no_entries() {
    let stream = write_index(false, &vec![]);
    // framed file header, framed header without identifier, checksum
    assert_eq!(&stream[..4], &[0x02, 0x08, 0x01, 0x00]);
    assert_eq!(stream.len(), 8);
    assert_eq!(read_index(&stream, false).unwrap(), vec![]);
}

#[test]
fn index_round_trip_unencrypted_and_encrypted() {
    let entries = vec![
        entry(1, &[(10, 100), (11, 200)]),
        entry(2, &[]),
        entry(3, &[(12, 0), (13, u32::MAX), (14, 7)]),
    ];
    let plain = write_index(false, &entries);
    assert_eq!(read_index(&plain, false).unwrap(), entries);
    let with_vector = write_index(true, &entries);
    assert_eq!(with_vector.len(), plain.len() + 16);
    assert_eq!(read_index(&with_vector, true).unwrap(), entries);
    // the body is the same, only the vector and the checksum differ
    assert_eq!(&with_vector[16..with_vector.len() - 4], &plain[..plain.len() - 4]);
}

#[test]
fn index_written_after_a_given_prefix() {
    let entries = vec![entry(1, &[(10, 100)])];
    let stream = write_index_to(AdlerWrite::new(vec![0xab; 16]), &entries);
    assert_eq!(&stream[..16], &[0xab; 16]);
    assert_eq!(read_index(&stream, true).unwrap(), entries);
    assert_eq!(unseal(&stream), Some(stream.len() - 4));
}

#[test]
fn index_with_wrong_checksum_is_corrupt() {
    let mut stream = write_index(false, &vec![entry(1, &[(10, 100)])]);
    let at = stream.len() / 2;
    stream[at] ^= 0x01;
    let error = read_index(&stream, false).unwrap_err();
    assert_eq!(error.kind, ErrorKind::CorruptFile);
    assert_eq!(error.message, "Adler32 hash mismatch");
}

#[test]
fn index_body_must_be_header_entries_and_terminator() {
    let good = write_index(false, &vec![entry(1, &[(10, 100)])]);
    let body = &good[..good.len() - 4];
    assert!(parse_index(body).is_ok());
    // no terminator
    assert_eq!(parse_index(&body[..body.len() - 1]).unwrap_err().kind, ErrorKind::CorruptFile);
    // something after the terminator
    let mut longer = body.to_vec();
    longer.push(0);
    assert_eq!(parse_index(&longer).unwrap_err().kind, ErrorKind::CorruptFile);
    // wrong version
    let mut other_version = body.to_vec();
    other_version[2] = 2;
    assert_eq!(parse_index(&other_version).unwrap_err().kind, ErrorKind::CorruptFile);
    // cut in the middle of an entry
    assert_eq!(parse_index(&body[..10]).unwrap_err().kind, ErrorKind::CorruptFile);
    // nothing at all
    assert_eq!(parse_index(&[]).unwrap_err().kind, ErrorKind::CorruptFile);
    // a sealed stream with such a body is corrupt though its checksum is right
    assert_eq!(read_index(&sealed(&longer), false).unwrap_err().kind, ErrorKind::CorruptFile);
}

#[test]
fn index_entries_are_read_one_by_one() {
    let stream = write_index(false, &vec![entry(1, &[(10, 100)]), entry(2, &[])]);
    let body = &stream[..stream.len() - 4];
    let start = read_file_header(body).unwrap();
    assert_eq!(start, 3);
    let (first, next) = read_entry(body, start).unwrap();
    assert_eq!(first, Some(entry(1, &[(10, 100)])));
    let (second, next) = read_entry(body, next).unwrap();
    assert_eq!(second, Some(entry(2, &[])));
    let (last, end) = read_entry(body, next).unwrap();
    assert_eq!(last, None);
    assert_eq!(end, body.len());
    assert!(read_entry(body, end).is_err());
}

fn backup_file(info: &[u8], prefix: &[u8]) -> Vec<u8> {
    let mut writer = AdlerWrite::new(prefix.to_vec());
    writer.write_record(&[0x08, 0x01]);
    writer.write_record(info);
    writer.close()
}

fn backup_info_bytes(sha256: &[u8], iterations: u64, data: &[u8]) -> Vec<u8> {
    let mut out = Vec::new();
    write_bytes_field(&mut out, 1, data);
    write_varint_field(&mut out, 2, iterations);
    write_varint_field(&mut out, 3, data.len() as u64);
    write_bytes_field(&mut out, 4, sha256);
    out
}

#[test]
fn backup_file_is_read_from_its_envelope() {
    let info = backup_info_bytes(&[9u8; 32], 2, b"instructions");
    let expected = BackupInfo {
        sha256: vec![9u8; 32],
        iterations: 2,
        backup_data: b"instructions".to_vec(),
    };
    assert_eq!(read_backup_file(&backup_file(&info, &[]), false).unwrap(), expected);
    assert_eq!(read_backup_file(&backup_file(&info, &[5u8; 16]), true).unwrap(), expected);
}

#[test]
fn backup_file_failures_are_corrupt_file() {
    let info = backup_info_bytes(&[9u8; 32], 2, b"instructions");
    let good = backup_file(&info, &[]);
    let mut flipped = good.clone();
    flipped[5] ^= 1;
    assert_eq!(read_backup_file(&flipped, false).unwrap_err().kind, ErrorKind::CorruptFile);
    // read as encrypted, the first 16 bytes are taken for the vector
    assert_eq!(read_backup_file(&good, true).unwrap_err().kind, ErrorKind::CorruptFile);
    // a record after the backup record
    let mut writer = AdlerWrite::new(vec![]);
    writer.write_record(&[0x08, 0x01]);
    writer.write_record(&info);
    writer.write_record(&[]);
    assert_eq!(read_backup_file(&writer.close(), false).unwrap_err().kind, ErrorKind::CorruptFile);
    // a backup record without digest
    let bad = backup_file(&backup_info_bytes(&[], 0, b"x"), &[]);
    assert_eq!(read_backup_file(&bad, false).unwrap_err().kind, ErrorKind::CorruptFile);
    assert_eq!(read_backup_file(&[], false).unwrap_err().kind, ErrorKind::CorruptFile);
}

#[test]
fn single_record_is_found_between_header_and_end() {
    let mut body = Vec::new();
    write_frame(&mut body, &[0x08, 0x01]);
    write_frame(&mut body, b"record");
    assert_eq!(read_single_record(&body), Some((4, 10)));
    body.push(0);
    assert_eq!(read_single_record(&body), None);
}

#[test]
fn info_file_is_never_encrypted() {
    let mut record = Vec::new();
    write_varint_field(&mut record, 1, 65536);
    let plain = backup_file(&record, &[]);
    assert!(!read_storage_info(&plain).unwrap().has_encryption_key());
    write_bytes_field(&mut record, 3, b"key record");
    let keyed = backup_file(&record, &[]);
    assert_eq!(read_storage_info(&keyed).unwrap().encryption_key, Some(b"key record".to_vec()));
    let mut broken = keyed.clone();
    broken[0] ^= 0xff;
    assert_eq!(read_storage_info(&broken).unwrap_err().kind, ErrorKind::CorruptFile);
}

fn chunk(seed: u8, data: &[u8]) -> Chunk {
    Chunk { chunk_id: id(seed), data: data.to_vec() }
}

#[test]
fn bundle_head_and_chunks_round_trip() {
    let chunks = vec![chunk(1, b"first"), chunk(2, b""), chunk(3, b"third chunk")];
    let draft = bundle_write_direct(false, &chunks).unwrap();
    assert_eq!(draft.payload, b"firstthird chunk".to_vec());
    let mut writer = draft.writer;
    let head_len = writer.byte_count();
    // the caller compresses the payload; here it is stored as it is
    writer.write(&draft.payload);
    let stream = writer.close();

    let info = read_bundle_info(&stream, false).unwrap();
    assert_eq!(
        info,
        BundleInfo {
            chunks: vec![
                ChunkRecord { chunk_id: id(1), size: 5 },
                ChunkRecord { chunk_id: id(2), size: 0 },
                ChunkRecord { chunk_id: id(3), size: 11 },
            ],
        }
    );
    let (same, payload_at) = read_bundle_head(&stream[..stream.len() - 4]).unwrap();
    assert_eq!(same, info);
    assert_eq!(payload_at, head_len);
    assert_eq!(read_bundle(&info, &stream[payload_at..stream.len() - 4]).unwrap(), chunks);
}

#[test]
fn bundle_head_of_an_encrypted_bundle_follows_the_vector() {
    let chunks = vec![chunk(1, b"abc")];
    let draft = bundle_write_direct(true, &chunks).unwrap();
    let stream = draft.writer.close();
    assert_eq!(read_bundle_info(&stream, true).unwrap().chunks[0].size, 3);
    assert_eq!(read_bundle_info(&stream[..10], true).unwrap_err().kind, ErrorKind::CorruptFile);
}

#[test]
fn bundle_payload_must_have_the_length_of_its_chunks() {
    let info = BundleInfo {
        chunks: vec![
            ChunkRecord { chunk_id: id(1), size: 2 },
            ChunkRecord { chunk_id: id(2), size: 3 },
        ],
    };
    assert_eq!(
        read_bundle(&info, b"aabbb").unwrap(),
        vec![chunk(1, b"aa"), chunk(2, b"bbb")]
    );
    assert_eq!(read_bundle(&info, b"aabb").unwrap_err().kind, ErrorKind::CorruptFile);
    assert_eq!(read_bundle(&info, b"aabbbb").unwrap_err().kind, ErrorKind::CorruptFile);
    assert_eq!(read_bundle(&info, b"").unwrap_err().kind, ErrorKind::CorruptFile);
    assert_eq!(read_bundle(&BundleInfo { chunks: vec![] }, b"").unwrap(), vec![]);
}

#[test]
fn instruction_stream_is_a_run_of_framed_instructions() {
    let instructions = vec![
        BackupInstruction { chunk_to_emit: Some(id(1)), bytes_to_emit: None },
        BackupInstruction { chunk_to_emit: None, bytes_to_emit: Some(b"END".to_vec()) },
    ];
    let mut stream = Vec::new();
    for instruction in &instructions {
        let mut record = Vec::new();
        instruction.write(&mut record);
        write_frame(&mut stream, &record);
    }
    assert_eq!(read_instructions(&stream).unwrap(), instructions);
    assert_eq!(read_instructions(&[]).unwrap(), vec![]);
    assert_eq!(
        read_instructions(&stream[..stream.len() - 1]).unwrap_err().kind,
        ErrorKind::CorruptFile
    );
}
