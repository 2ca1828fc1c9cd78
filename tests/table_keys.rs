use nacs::drain::record_version_keys;
use nacs::schema::{
    append_table_index_prefix, append_table_record_prefix, encode_column_key, encode_row_key,
    extract_table_prefix, RECORD_ROW_KEY_LEN, TABLE_PREFIX_KEY_LEN,
};
use nacs::{ScannerConfig, ValueType, DIST_QT1_KEY, LARGEST_KEY_STR, LOWEST_KEY_STR};

#[test]
fn row_key_bytes() {
    assert_eq!(encode_row_key(0, 0), LOWEST_KEY_STR.to_vec());
    assert_eq!(encode_row_key(30, 2000), LARGEST_KEY_STR.to_vec());
    assert_eq!(encode_row_key(7, 0), DIST_QT1_KEY.to_vec());
    assert_eq!(encode_row_key(1, 2).len(), RECORD_ROW_KEY_LEN);
}

#[test]
fn column_key_and_prefixes() {
    let k = encode_column_key(1, 2, -1);
    assert_eq!(k.len(), RECORD_ROW_KEY_LEN + 8);
    assert_eq!(&k[..19], &encode_row_key(1, 2)[..]);
    assert_eq!(&k[19..], &[0x7f, 0xff, 0xff, 0xff, 0xff, 0xff, 0xff, 0xff]);
    let mut r = Vec::new();
    append_table_record_prefix(&mut r, 5);
    assert_eq!(r, vec![b't', 0x80, 0, 0, 0, 0, 0, 0, 5, b'_', b'r']);
    let mut i = Vec::new();
    append_table_index_prefix(&mut i, 5);
    assert_eq!(i, vec![b't', 0x80, 0, 0, 0, 0, 0, 0, 5, b'_', b'i']);
    assert_eq!(extract_table_prefix(&k), &k[..TABLE_PREFIX_KEY_LEN]);
}

#[test]
fn scanner_config_bounds() {
    let d = ScannerConfig::default();
    assert_eq!(d.lower_bound, LOWEST_KEY_STR.to_vec());
    assert_eq!(d.upper_bound, LARGEST_KEY_STR.to_vec());
    let c = ScannerConfig::new(Some(vec![1]), None);
    assert_eq!(c.lower_bound, vec![1]);
    assert_eq!(c.upper_bound, LARGEST_KEY_STR.to_vec());
}

#[test]
fn value_sizes() {
    assert_eq!(ValueType::MiddleValue.value(), 64);
    assert_eq!(ValueType::LongValue.value(), 128);
    assert_eq!(ValueType::LongLongValue.value(), 256);
    for _ in 0..20 {
        let v = ValueType::MixValue.value();
        assert!(v == 64 || v == 128 || v == 256);
    }
    assert_eq!(ValueType::MixValue.value_for_choice(0), 64);
    assert_eq!(ValueType::MixValue.value_for_choice(1), 128);
    assert_eq!(ValueType::MixValue.value_for_choice(2), 256);
    assert_eq!(ValueType::LongValue.value_for_choice(2), 128);
}

#[test]
fn version_keys_of_a_record() {
    let (commit, start) = record_version_keys(3, 9, 10, 20);
    let row = encode_row_key(3, 9);
    assert_eq!(&commit[..19], &row[..]);
    assert_eq!(&start[..19], &row[..]);
    assert_eq!(&commit[19..], &(!20u64).to_be_bytes()[..]);
    assert_eq!(&start[19..], &(!10u64).to_be_bytes()[..]);
    assert!(commit < start);
}
