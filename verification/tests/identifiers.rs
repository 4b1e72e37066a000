use rzbackup::data::{
    Id, BUFFER_SIZE, FILESYSTEM_CACHE_PATH, HMAC_SIZE, ID_SIZE, IV_SIZE, KEY_SIZE,
    MAX_COMPRESSED_FILESYSTEM_CACHE_ENTRIES, MAX_COMPRESSED_MEMORY_CACHE_ENTRIES,
    MAX_UNCOMPRESSED_MEMORY_CACHE_ENTRIES, WORK_JOBS_BATCH, WORK_JOBS_TOTAL,
};
use rzbackup::hex::digit_value;
use rzbackup::hex::{decode_hex, encode_hex};

#[test]
fn hex_of_bytes_is_lowercase_pairs() {
    assert_eq!(encode_hex(&[0x00, 0x0f, 0xa5, 0xff]), "000fa5ff");
    assert_eq!(encode_hex(&[]), "");
}

#[test]
fn hex_decodes_what_it_encodes() {
    let bytes: Vec<u8> = (0..=255).collect();
    let text = encode_hex(&bytes);
    assert_eq!(decode_hex(&text), Some(bytes));
}

#[test]
fn hex_refuses_uppercase_odd_length_and_other_characters() {
    assert_eq!(decode_hex("AB"), None);
    assert_eq!(decode_hex("abc"), None);
    assert_eq!(decode_hex("zz"), None);
    assert_eq!(decode_hex("a b0"), None);
    assert_eq!(decode_hex("\u{e9}\u{e9}"), None);
    assert_eq!(decode_hex(""), Some(vec![]));
}

#[test]
fn id_round_trips_through_bytes_and_hex() {
    let bytes: Vec<u8> = (1..=24).collect();
    let id = Id::from_bytes(&bytes).unwrap();
    assert_eq!(id.to_bytes(), bytes);
    let name = id.to_hex();
    assert_eq!(name, "0102030405060708090a0b0c0d0e0f101112131415161718");
    assert_eq!(Id::parse(&name), Some(id));
}

#[test]
fn id_needs_exactly_24_bytes() {
    assert_eq!(Id::from_bytes(&[0u8; 23]), None);
    assert_eq!(Id::from_bytes(&[0u8; 25]), None);
    assert!(Id::from_bytes(&[0u8; 24]).is_some());
    let bytes: Vec<u8> = (100..124).collect();
    assert_eq!(Id::from_id_bytes(&bytes).to_bytes(), bytes);
}

#[test]
fn id_parse_refuses_names_that_are_no_identifiers() {
    assert_eq!(Id::parse(""), None);
    assert_eq!(Id::parse("0102"), None);
    assert_eq!(Id::parse("0102030405060708090A0B0C0D0E0F101112131415161718"), None);
    assert_eq!(Id::parse("0102030405060708090a0b0c0d0e0f10111213141516171"), None);
    assert_eq!(Id::parse("0102030405060708090a0b0c0d0e0f1011121314151617181"), None);
    assert_eq!(Id::parse("g102030405060708090a0b0c0d0e0f101112131415161718"), None);
}

#[test]
fn sizes_and_defaults() {
    assert_eq!(KEY_SIZE, 16);
    assert_eq!(HMAC_SIZE, 20);
    assert_eq!(IV_SIZE, 16);
    assert_eq!(ID_SIZE, 24);
    assert_eq!(BUFFER_SIZE, 65536);
    assert_eq!(WORK_JOBS_TOTAL, 4096);
    assert_eq!(WORK_JOBS_BATCH, 256);
    assert_eq!(MAX_UNCOMPRESSED_MEMORY_CACHE_ENTRIES, 2048);
    assert_eq!(MAX_COMPRESSED_MEMORY_CACHE_ENTRIES, 16384);
    assert_eq!(MAX_COMPRESSED_FILESYSTEM_CACHE_ENTRIES, 131072);
    assert_eq!(FILESYSTEM_CACHE_PATH, "/tmp/rzbackup-cache");
}

#[test]
fn hexadecimal_digits_are_read_in_lower_case_only() {
    assert_eq!(digit_value(b'0'), Some(0));
    assert_eq!(digit_value(b'9'), Some(9));
    assert_eq!(digit_value(b'a'), Some(10));
    assert_eq!(digit_value(b'f'), Some(15));
    assert_eq!(digit_value(b'g'), None);
    assert_eq!(digit_value(b'A'), None);
    assert_eq!(digit_value(b'/'), None);
    assert_eq!(digit_value(b':'), None);
}
