use protobuf::CodedOutputStream;
use rzbackup::data::Id;
use rzbackup::digest::digestible;
use rzbackup::error::{Error, ErrorKind};
use rzbackup::records::{
    copy_bytes, last_bytes, last_varint, write_chunk_records, BackupInfo, BackupInstruction,
    BundleInfo, ChunkRecord, EncryptionKeyInfo, FileHeader, IndexBundleHeader, StorageInfo,
};
use rzbackup::wire::{
    read_field, read_fields, read_varint, write_bytes_field, write_varint, write_varint_field,
    Field, WireValue,
};

fn id(seed: u8) -> Id {
    let bytes: Vec<u8> = (0..24).map(|i| seed.wrapping_add(i)).collect();
    Id::from_bytes(&bytes).unwrap()
}

fn reference_varint(n: u64) -> Vec<u8> {
    let mut bytes = Vec::new();
    {
        let mut stream = CodedOutputStream::vec(&mut bytes);
        stream.write_raw_varint64(n).unwrap();
        stream.flush().unwrap();
    }
    bytes
}

fn varint(n: u64) -> Vec<u8> {
    let mut out = Vec::new();
    write_varint(&mut out, n);
    out
}

#[test]
fn varint_exact_encodings() {
    assert_eq!(varint(0), vec![0x00]);
    assert_eq!(varint(1), vec![0x01]);
    assert_eq!(varint(127), vec![0x7f]);
    assert_eq!(varint(128), vec![0x80, 0x01]);
    assert_eq!(varint(300), vec![0xac, 0x02]);
    assert_eq!(varint(16384), vec![0x80, 0x80, 0x01]);
    assert_eq!(
        varint(u64::MAX),
        vec![0xff, 0xff, 0xff, 0xff, 0xff, 0xff, 0xff, 0xff, 0xff, 0x01]
    );
}

#[test]
fn varint_appends_to_what_is_there() {
    let mut out = vec![9u8, 8];
    write_varint(&mut out, 300);
    assert_eq!(out, vec![9, 8, 0xac, 0x02]);
}

#[test]
fn varint_matches_the_reference_encoder() {
    for n in [0u64, 1, 2, 127, 128, 255, 256, 16383, 16384, 1 << 21, (1 << 28) - 1, 1 << 35,
        u32::MAX as u64, u64::MAX - 1, u64::MAX]
    {
        assert_eq!(varint(n), reference_varint(n), "n = {}", n);
    }
}

#[test]
fn varint_reads_back_with_position() {
    for n in [0u64, 5, 127, 128, 300, 1 << 40, u64::MAX] {
        let mut data = vec![0xee];
        write_varint(&mut data, n);
        let end = data.len();
        data.push(0x55);
        assert_eq!(read_varint(&data, 1), Some((n, end)));
    }
}

#[test]
fn varint_read_refuses_what_is_cut_short_too_long_or_too_large() {
    assert_eq!(read_varint(&[], 0), None);
    assert_eq!(read_varint(&[0x80], 0), None);
    assert_eq!(read_varint(&[0xff, 0xff], 0), None);
    // eleven bytes
    assert_eq!(
        read_varint(&[0x80, 0x80, 0x80, 0x80, 0x80, 0x80, 0x80, 0x80, 0x80, 0x80, 0x01], 0),
        None
    );
    // ten bytes whose value needs 65 bits
    assert_eq!(
        read_varint(&[0xff, 0xff, 0xff, 0xff, 0xff, 0xff, 0xff, 0xff, 0xff, 0x02], 0),
        None
    );
    // a longer form of a small number is read
    assert_eq!(read_varint(&[0x81, 0x00], 0), Some((1, 2)));
    // at the very end of the data
    assert_eq!(read_varint(&[0x01], 1), None);
}

#[test]
fn fields_exact_bytes() {
    let mut out = Vec::new();
    write_varint_field(&mut out, 2, 300);
    assert_eq!(out, vec![0x10, 0xac, 0x02]);
    let mut out = Vec::new();
    write_bytes_field(&mut out, 1, b"abc");
    assert_eq!(out, vec![0x0a, 0x03, b'a', b'b', b'c']);
    let mut out = Vec::new();
    write_bytes_field(&mut out, 16, b"");
    assert_eq!(out, vec![0x82, 0x01, 0x00]);
}

#[test]
fn fields_match_the_reference_encoder() {
    let mut expected = Vec::new();
    {
        let mut stream = CodedOutputStream::vec(&mut expected);
        stream.write_bytes(1, b"hello").unwrap();
        stream.write_uint32(2, 70000).unwrap();
        stream.write_uint64(3, u64::MAX).unwrap();
        stream.write_bytes(100, &[0u8; 200]).unwrap();
        stream.flush().unwrap();
    }
    let mut out = Vec::new();
    write_bytes_field(&mut out, 1, b"hello");
    write_varint_field(&mut out, 2, 70000);
    write_varint_field(&mut out, 3, u64::MAX);
    write_bytes_field(&mut out, 100, &[0u8; 200]);
    assert_eq!(out, expected);
}

#[test]
fn read_fields_of_every_wire_kind() {
    let mut data = Vec::new();
    {
        let mut stream = CodedOutputStream::vec(&mut data);
        stream.write_uint64(1, 7).unwrap();
        stream.write_fixed64(2, 0x0807060504030201).unwrap();
        stream.write_bytes(3, b"xy").unwrap();
        stream.write_fixed32(4, 0x04030201).unwrap();
        stream.flush().unwrap();
    }
    let fields = read_fields(&data).unwrap();
    assert_eq!(
        fields,
        vec![
            Field { number: 1, value: WireValue::Varint(7) },
            Field { number: 2, value: WireValue::Fixed64(vec![1, 2, 3, 4, 5, 6, 7, 8]) },
            Field { number: 3, value: WireValue::Bytes(b"xy".to_vec()) },
            Field { number: 4, value: WireValue::Fixed32(vec![1, 2, 3, 4]) },
        ]
    );
    assert_eq!(read_fields(&[]), Some(vec![]));
}

#[test]
fn read_field_gives_the_next_position() {
    let mut data = vec![0xaa];
    write_bytes_field(&mut data, 5, b"abc");
    write_varint_field(&mut data, 6, 1);
    let (first, next) = read_field(&data, 1).unwrap();
    assert_eq!(first, Field { number: 5, value: WireValue::Bytes(b"abc".to_vec()) });
    assert_eq!(next, 6);
    let (second, end) = read_field(&data, next).unwrap();
    assert_eq!(second, Field { number: 6, value: WireValue::Varint(1) });
    assert_eq!(end, data.len());
}

#[test]
fn read_fields_refuses_malformed_records() {
    // field number 0
    assert_eq!(read_fields(&[0x00, 0x01]), None);
    // wire kind 3, 4, 6, 7
    assert_eq!(read_fields(&[0x0b]), None);
    assert_eq!(read_fields(&[0x0c]), None);
    assert_eq!(read_fields(&[0x0e, 0x00]), None);
    assert_eq!(read_fields(&[0x0f, 0x00]), None);
    // bytes cut short
    assert_eq!(read_fields(&[0x0a, 0x03, b'a', b'b']), None);
    // fixed payloads cut short
    assert_eq!(read_fields(&[0x09, 1, 2, 3, 4, 5, 6, 7]), None);
    assert_eq!(read_fields(&[0x0d, 1, 2, 3]), None);
    // tag without payload
    assert_eq!(read_fields(&[0x08]), None);
    // a length that is larger than any buffer
    assert_eq!(
        read_fields(&[0x0a, 0xff, 0xff, 0xff, 0xff, 0xff, 0xff, 0xff, 0xff, 0xff, 0x01]),
        None
    );
}

#[test]
fn chunk_record_round_trip_and_exact_bytes() {
    let record = ChunkRecord { chunk_id: id(1), size: 300 };
    let mut out = Vec::new();
    record.write(&mut out);
    let mut expected = vec![0x0a, 24];
    expected.extend(id(1).to_bytes());
    expected.extend([0x10, 0xac, 0x02]);
    assert_eq!(out, expected);
    assert_eq!(ChunkRecord::parse(&out), Some(record));
}

#[test]
fn chunk_record_needs_both_fields_well_formed() {
    let mut only_id = Vec::new();
    write_bytes_field(&mut only_id, 1, &id(1).to_bytes());
    assert_eq!(ChunkRecord::parse(&only_id), None);
    let mut only_size = Vec::new();
    write_varint_field(&mut only_size, 2, 5);
    assert_eq!(ChunkRecord::parse(&only_size), None);
    let mut short_id = Vec::new();
    write_bytes_field(&mut short_id, 1, &[1u8; 23]);
    write_varint_field(&mut short_id, 2, 5);
    assert_eq!(ChunkRecord::parse(&short_id), None);
    let mut large_size = Vec::new();
    write_bytes_field(&mut large_size, 1, &id(1).to_bytes());
    write_varint_field(&mut large_size, 2, u32::MAX as u64 + 1);
    assert_eq!(ChunkRecord::parse(&large_size), None);
    let mut wrong_kind = Vec::new();
    write_varint_field(&mut wrong_kind, 1, 5);
    write_varint_field(&mut wrong_kind, 2, 5);
    assert_eq!(ChunkRecord::parse(&wrong_kind), None);
    assert_eq!(ChunkRecord::parse(&[]), None);
}

#[test]
fn chunk_record_last_occurrence_counts_and_other_fields_are_passed_over() {
    let mut data = Vec::new();
    write_varint_field(&mut data, 2, 1);
    write_bytes_field(&mut data, 1, &id(9).to_bytes());
    write_bytes_field(&mut data, 7, b"whatever");
    write_varint_field(&mut data, 2, 2);
    write_bytes_field(&mut data, 1, &id(3).to_bytes());
    assert_eq!(ChunkRecord::parse(&data), Some(ChunkRecord { chunk_id: id(3), size: 2 }));
}

#[test]
fn file_header_round_trip() {
    let header = FileHeader { version: 1 };
    let mut out = Vec::new();
    header.write(&mut out);
    assert_eq!(out, vec![0x08, 0x01]);
    assert_eq!(FileHeader::parse(&out), Some(header));
    assert_eq!(FileHeader::parse(&[0x08, 0x07]), Some(FileHeader { version: 7 }));
    assert_eq!(FileHeader::parse(&[]), None);
    assert_eq!(FileHeader::parse(&[0x0a, 0x00]), None);
}

#[test]
fn index_bundle_header_round_trip_and_terminator() {
    let header = IndexBundleHeader { bundle_id: Some(id(4)) };
    let mut out = Vec::new();
    header.write(&mut out);
    assert_eq!(out.len(), 26);
    assert_eq!(IndexBundleHeader::parse(&out), Some(header));

    let last = IndexBundleHeader { bundle_id: None };
    let mut out = Vec::new();
    last.write(&mut out);
    assert_eq!(out, Vec::<u8>::new());
    assert_eq!(IndexBundleHeader::parse(&out), Some(last));
    // an identifier that is present and empty also ends the file
    assert_eq!(IndexBundleHeader::parse(&[0x0a, 0x00]), Some(last));
    // an identifier of another length is refused
    assert_eq!(IndexBundleHeader::parse(&[0x0a, 0x01, 0xff]), None);
}

#[test]
fn bundle_info_round_trip() {
    let info = BundleInfo {
        chunks: vec![
            ChunkRecord { chunk_id: id(1), size: 10 },
            ChunkRecord { chunk_id: id(2), size: 0 },
            ChunkRecord { chunk_id: id(3), size: u32::MAX },
        ],
    };
    let mut out = Vec::new();
    info.write(&mut out);
    assert_eq!(BundleInfo::parse(&out), Some(info));
    assert_eq!(BundleInfo::parse(&[]), Some(BundleInfo { chunks: vec![] }));
}

#[test]
fn bundle_info_matches_the_reference_encoder() {
    let mut inner = Vec::new();
    {
        let mut stream = CodedOutputStream::vec(&mut inner);
        stream.write_bytes(1, &id(1).to_bytes()).unwrap();
        stream.write_uint32(2, 4096).unwrap();
        stream.flush().unwrap();
    }
    let mut expected = Vec::new();
    {
        let mut stream = CodedOutputStream::vec(&mut expected);
        stream.write_bytes(1, &inner).unwrap();
        stream.flush().unwrap();
    }
    let info = BundleInfo { chunks: vec![ChunkRecord { chunk_id: id(1), size: 4096 }] };
    let mut out = Vec::new();
    info.write(&mut out);
    assert_eq!(out, expected);
}

#[test]
fn bundle_info_passes_over_other_fields_and_refuses_bad_chunk_records() {
    let mut record = Vec::new();
    ChunkRecord { chunk_id: id(1), size: 10 }.write(&mut record);
    let mut data = Vec::new();
    write_bytes_field(&mut data, 2, b"lzma");
    write_bytes_field(&mut data, 1, &record);
    assert_eq!(
        BundleInfo::parse(&data),
        Some(BundleInfo { chunks: vec![ChunkRecord { chunk_id: id(1), size: 10 }] })
    );
    let mut bad = Vec::new();
    write_bytes_field(&mut bad, 1, &record[..record.len() - 1]);
    assert_eq!(BundleInfo::parse(&bad), None);
    let mut wrong_kind = Vec::new();
    write_varint_field(&mut wrong_kind, 1, 3);
    assert_eq!(BundleInfo::parse(&wrong_kind), None);
}

#[test]
fn backup_instruction_round_trips_in_all_four_shapes() {
    let shapes = vec![
        BackupInstruction { chunk_to_emit: Some(id(1)), bytes_to_emit: Some(b"X".to_vec()) },
        BackupInstruction { chunk_to_emit: Some(id(1)), bytes_to_emit: None },
        BackupInstruction { chunk_to_emit: None, bytes_to_emit: Some(b"END".to_vec()) },
        BackupInstruction { chunk_to_emit: None, bytes_to_emit: None },
    ];
    for instruction in shapes {
        let mut out = Vec::new();
        instruction.write(&mut out);
        assert_eq!(BackupInstruction::parse(&out), Some(instruction));
    }
}

#[test]
fn backup_instruction_exact_bytes() {
    let instruction =
        BackupInstruction { chunk_to_emit: Some(id(0)), bytes_to_emit: Some(b"X".to_vec()) };
    let mut out = Vec::new();
    instruction.write(&mut out);
    let mut expected = vec![0x0a, 24];
    expected.extend(0u8..24);
    expected.extend([0x12, 0x01, b'X']);
    assert_eq!(out, expected);
}

#[test]
fn backup_instruction_refuses_a_chunk_of_the_wrong_length() {
    let mut data = Vec::new();
    write_bytes_field(&mut data, 1, &[0u8; 25]);
    assert_eq!(BackupInstruction::parse(&data), None);
    let mut data = Vec::new();
    write_varint_field(&mut data, 2, 1);
    assert_eq!(BackupInstruction::parse(&data), None);
}

fn backup_info_bytes(sha256: &[u8], iterations: Option<u32>, data: Option<&[u8]>) -> Vec<u8> {
    let mut out = Vec::new();
    {
        let mut stream = CodedOutputStream::vec(&mut out);
        if let Some(bytes) = data {
            stream.write_bytes(1, bytes).unwrap();
        }
        if let Some(n) = iterations {
            stream.write_uint32(2, n).unwrap();
        }
        stream.write_uint64(3, 12345).unwrap();
        stream.write_bytes(4, sha256).unwrap();
        stream.write_int64(5, 1_500_000_000).unwrap();
        stream.flush().unwrap();
    }
    out
}

#[test]
fn backup_info_reads_digest_iterations_and_data() {
    let sha = [7u8; 32];
    assert_eq!(
        BackupInfo::parse(&backup_info_bytes(&sha, Some(3), Some(b"data"))),
        Some(BackupInfo { sha256: sha.to_vec(), iterations: 3, backup_data: b"data".to_vec() })
    );
    // iterations count as 0 where absent
    assert_eq!(
        BackupInfo::parse(&backup_info_bytes(&sha, None, Some(b""))),
        Some(BackupInfo { sha256: sha.to_vec(), iterations: 0, backup_data: vec![] })
    );
}

#[test]
fn backup_info_needs_digest_of_32_bytes_and_data() {
    assert_eq!(BackupInfo::parse(&backup_info_bytes(&[7u8; 31], Some(0), Some(b"d"))), None);
    assert_eq!(BackupInfo::parse(&backup_info_bytes(&[7u8; 32], Some(0), None)), None);
    assert_eq!(BackupInfo::parse(&[]), None);
}

#[test]
fn storage_info_tells_whether_a_key_is_declared() {
    let mut plain = Vec::new();
    write_varint_field(&mut plain, 1, 65536);
    write_varint_field(&mut plain, 2, 2097152);
    write_bytes_field(&mut plain, 4, b"lzma");
    let info = StorageInfo::parse(&plain).unwrap();
    assert!(!info.has_encryption_key());
    assert_eq!(info.encryption_key, None);

    let mut keyed = plain.clone();
    write_bytes_field(&mut keyed, 3, b"wrapped");
    let info = StorageInfo::parse(&keyed).unwrap();
    assert!(info.has_encryption_key());
    assert_eq!(info.encryption_key, Some(b"wrapped".to_vec()));

    let mut wrong = Vec::new();
    write_varint_field(&mut wrong, 3, 1);
    assert_eq!(StorageInfo::parse(&wrong), None);
}

#[test]
fn encryption_key_info_needs_all_five_fields() {
    let mut data = Vec::new();
    write_bytes_field(&mut data, 1, b"salt");
    write_varint_field(&mut data, 2, 4096);
    write_bytes_field(&mut data, 3, b"encrypted key...");
    write_bytes_field(&mut data, 4, b"check input");
    let incomplete = data.clone();
    write_bytes_field(&mut data, 5, b"check hmac");
    assert_eq!(
        EncryptionKeyInfo::parse(&data),
        Some(EncryptionKeyInfo {
            salt: b"salt".to_vec(),
            rounds: 4096,
            encrypted_key: b"encrypted key...".to_vec(),
            key_check_input: b"check input".to_vec(),
            key_check_hmac: b"check hmac".to_vec(),
        })
    );
    assert_eq!(EncryptionKeyInfo::parse(&incomplete), None);
}

#[test]
fn last_field_of_a_number_counts() {
    let fields = vec![
        Field { number: 1, value: WireValue::Bytes(b"first".to_vec()) },
        Field { number: 2, value: WireValue::Varint(5) },
        Field { number: 1, value: WireValue::Bytes(b"second".to_vec()) },
        Field { number: 2, value: WireValue::Varint(6) },
        Field { number: 3, value: WireValue::Fixed32(vec![0; 4]) },
    ];
    assert_eq!(last_bytes(&fields, 1), Ok(Some(&b"second".to_vec())));
    assert_eq!(last_varint(&fields, 2), Ok(Some(6)));
    assert_eq!(last_bytes(&fields, 4), Ok(None));
    assert_eq!(last_varint(&fields, 4), Ok(None));
    // a field of the number with another wire kind spoils it, wherever it stands
    assert_eq!(last_bytes(&fields, 2), Err(()));
    assert_eq!(last_varint(&fields, 1), Err(()));
    assert_eq!(last_bytes(&fields, 3), Err(()));
    assert_eq!(last_varint(&fields, 3), Err(()));
}

#[test]
fn chunk_records_are_written_as_a_bundle_record() {
    let chunks = vec![ChunkRecord { chunk_id: id(1), size: 1 }, ChunkRecord { chunk_id: id(2), size: 2 }];
    let mut direct = vec![0xee];
    write_chunk_records(&chunks, &mut direct);
    let mut through = vec![0xee];
    BundleInfo { chunks: chunks.clone() }.write(&mut through);
    assert_eq!(direct, through);
    assert_eq!(BundleInfo::parse(&direct[1..]), Some(BundleInfo { chunks }));
}

#[test]
fn bytes_are_copied() {
    assert_eq!(copy_bytes(&vec![1, 2, 3]), vec![1, 2, 3]);
    assert_eq!(copy_bytes(&vec![]), Vec::<u8>::new());
}

#[test]
fn short_data_can_be_digested() {
    assert!(digestible(b""));
    assert!(digestible(&[0u8; 1000]));
}

#[test]
fn errors_carry_kind_and_message() {
    let plain = Error::new(ErrorKind::IoError, "disk full");
    assert_eq!(plain.kind, ErrorKind::IoError);
    assert_eq!(plain.to_string(), "disk full");
    let detailed = Error::with_detail(ErrorKind::LockError, "Error obtaining lock: ", "busy");
    assert_eq!(detailed.kind, ErrorKind::LockError);
    assert_eq!(detailed.message, "Error obtaining lock: busy");
}
