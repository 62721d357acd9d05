use htdb::Codec;
use htdb::Config;
use htdb::DatabaseError;
use htdb::KeyCmp;
use htdb::Options;
use htdb::StoreKey;
use htdb::TrivialHasher;

#[test]
fn integers_encode_little_endian_and_round_trip() {
    let mut out: Vec<u8> = Vec::new();
    0x0102_0304_0506_0708u64.encode(&mut out);
    assert_eq!(vec![8, 7, 6, 5, 4, 3, 2, 1], out);

    let mut pos: usize = 0;
    assert_eq!(Some(0x0102_0304_0506_0708u64), <u64 as Codec>::decode(&out, &mut pos));
    assert_eq!(8, pos);
}

#[test]
fn usize_values_round_trip() {
    let mut out: Vec<u8> = Vec::new();
    42usize.encode(&mut out);
    7usize.encode(&mut out);

    let mut pos: usize = 0;
    assert_eq!(Some(42usize), <usize as Codec>::decode(&out, &mut pos));
    assert_eq!(Some(7usize), <usize as Codec>::decode(&out, &mut pos));
    assert_eq!(16, pos);
}

#[test]
fn byte_strings_are_length_prefixed() {
    let mut out: Vec<u8> = Vec::new();
    vec![10u8, 20, 30].encode(&mut out);
    assert_eq!(vec![3, 0, 0, 0, 0, 0, 0, 0, 10, 20, 30], out);

    let mut pos: usize = 0;
    assert_eq!(Some(vec![10u8, 20, 30]), <Vec<u8> as Codec>::decode(&out, &mut pos));
    assert_eq!(11, pos);
}

#[test]
fn truncated_streams_are_rejected() {
    let mut pos: usize = 0;
    assert_eq!(None, <u64 as Codec>::decode(&vec![1, 2, 3], &mut pos));
    assert_eq!(0, pos);

    // a length prefix promising more bytes than remain
    let mut pos2: usize = 0;
    assert_eq!(
        None,
        <Vec<u8> as Codec>::decode(&vec![9, 0, 0, 0, 0, 0, 0, 0, 1], &mut pos2)
    );
    assert_eq!(0, pos2);
}

#[test]
fn byte_keys_compare_lexicographically() {
    assert!(matches!(vec![1u8, 2].key_cmp(&vec![1u8, 3]), KeyCmp::Less));
    assert!(matches!(vec![1u8, 3].key_cmp(&vec![1u8, 2]), KeyCmp::Greater));
    assert!(matches!(vec![1u8, 2].key_cmp(&vec![1u8, 2]), KeyCmp::Equal));
    // a proper prefix sorts before its extension
    assert!(matches!(vec![1u8].key_cmp(&vec![1u8, 0]), KeyCmp::Less));
    assert!(matches!(Vec::<u8>::new().key_cmp(&vec![0u8]), KeyCmp::Less));
}

#[test]
fn hasher_folds_bytes_into_lanes() {
    let mut hasher = TrivialHasher::new();
    hasher.write(&[1, 2]);
    assert_eq!(0x0201, hasher.finish());

    let mut hasher2 = TrivialHasher::default();
    hasher2.write(&[1, 2, 3, 4, 5, 6, 7, 8, 9]);
    // the ninth byte folds back into the first lane
    assert_eq!(0x0807060504030201u64 ^ 9, hasher2.finish());
}

#[test]
fn hasher_folds_integers_directly() {
    let mut hasher = TrivialHasher::new();
    hasher.write_u64(0xff00);
    hasher.write_u8(0xff);
    assert_eq!(0xffff, hasher.finish());

    let mut hasher2 = TrivialHasher::new();
    hasher2.write_u128((7u128 << 64) | 11u128);
    assert_eq!(7u64 ^ 11u64, hasher2.finish());

    let mut hasher3 = TrivialHasher::new();
    hasher3.write_usize(5);
    hasher3.write_u16(6);
    hasher3.write_u32(7);
    assert_eq!(5u64 ^ 6 ^ 7, hasher3.finish());
}

#[test]
fn config_defaults_and_setters() {
    let config = Config::default();
    assert_eq!(128, config.max_page_size());
    assert_eq!(None, config.max_pages());
    assert_eq!(".", config.storage_path().as_str());

    let config = config
        .set_max_page_size(16)
        .set_max_pages(Some(4))
        .set_storage_path("/tmp/store".to_string());
    assert_eq!(16, config.max_page_size());
    assert_eq!(Some(4), config.max_pages());
    assert_eq!("/tmp/store", config.storage_path().as_str());
}

#[test]
fn errors_carry_their_messages() {
    let e = DatabaseError::create_file_error("no space".to_string());
    assert!(matches!(e, DatabaseError::CreateFileError { .. }));
    assert_eq!("no space", e.message().as_str());

    let e = DatabaseError::open_file_error("missing".to_string());
    assert!(matches!(e, DatabaseError::OpenFileError { .. }));

    let e = DatabaseError::serialize_error("bad stream".to_string());
    assert!(matches!(e, DatabaseError::SerializeError { .. }));

    let e = DatabaseError::encoding_error("bad text".to_string());
    assert!(matches!(e, DatabaseError::EncodingError { .. }));

    let e = DatabaseError::invalid_range("reversed".to_string());
    assert!(matches!(e, DatabaseError::InvalidRange { .. }));
    assert_eq!("reversed", e.message().as_str());
}

#[test]
fn options_carry_parsed_values() {
    let options = Options::new(8192, None, ".".to_string());
    assert_eq!(8192, options.page_size());
    assert_eq!(None, options.memory_pages());
    assert_eq!(".", options.storage_path().as_str());
}
