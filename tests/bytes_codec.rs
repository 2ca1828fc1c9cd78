use nacs::bytes::{
    decode_bytes, decode_bytes_in_place, decode_compact_bytes, encode_bytes, encode_bytes_desc,
    encode_order_bytes, encoded_bytes_len, encoded_compact_len, max_encoded_bytes_size,
    write_bytes, write_compact_bytes,
};
use nacs::Error;

fn samples() -> Vec<Vec<u8>> {
    vec![
        vec![],
        vec![0],
        vec![1, 2, 3],
        vec![0xff],
        vec![1, 2, 3, 0, 0, 0, 0],
        vec![1, 2, 3, 4, 5, 6, 7, 8],
        vec![1, 2, 3, 4, 5, 6, 7, 8, 0],
        vec![1, 2, 3, 4, 5, 6, 7, 8, 9, 10, 11, 12, 13, 14, 15, 16, 17],
        vec![0xff; 16],
        vec![0; 9],
    ]
}

#[test]
fn encode_one_two_three_ascending() {
    let encoded = encode_bytes(&[1, 2, 3]);
    assert_eq!(encoded, vec![1, 2, 3, 0, 0, 0, 0, 0, 0xfa]);
    let mut data: &[u8] = &encoded;
    assert_eq!(decode_bytes(&mut data, false).unwrap(), vec![1, 2, 3]);
    assert!(data.is_empty());
}

#[test]
fn encode_exact_groups() {
    assert_eq!(encode_bytes(&[]), vec![0, 0, 0, 0, 0, 0, 0, 0, 0xf7]);
    assert_eq!(
        encode_bytes(&[1, 2, 3, 4, 5, 6, 7, 8]),
        vec![1, 2, 3, 4, 5, 6, 7, 8, 0xff, 0, 0, 0, 0, 0, 0, 0, 0, 0xf7]
    );
    assert_eq!(
        encode_bytes_desc(&[1, 2, 3]),
        vec![0xfe, 0xfd, 0xfc, 0xff, 0xff, 0xff, 0xff, 0xff, 0x05]
    );
}

#[test]
fn encoded_length_formula() {
    for key in samples() {
        let expected = (key.len() / 8 + 1) * 9;
        assert_eq!(encode_bytes(&key).len(), expected);
        assert_eq!(encode_bytes_desc(&key).len(), expected);
        assert_eq!(max_encoded_bytes_size(key.len()), expected);
    }
    assert_eq!(max_encoded_bytes_size(0), 9);
    assert_eq!(max_encoded_bytes_size(7), 9);
    assert_eq!(max_encoded_bytes_size(8), 18);
}

#[test]
fn bytes_round_trip_both_orders() {
    for key in samples() {
        for desc in [false, true] {
            let mut encoded = encode_order_bytes(&key, desc);
            encoded.extend_from_slice(&[0x42, 0x43]);
            let mut data: &[u8] = &encoded;
            assert_eq!(decode_bytes(&mut data, desc).unwrap(), key);
            assert_eq!(data, &[0x42, 0x43][..]);
        }
    }
}

#[test]
fn bytes_order_preserved() {
    let keys = samples();
    for a in &keys {
        for b in &keys {
            assert_eq!(a < b, encode_bytes(a) < encode_bytes(b));
            assert_eq!(a < b, encode_bytes_desc(a) > encode_bytes_desc(b));
        }
    }
}

#[test]
fn corrupted_padding_is_rejected() {
    for key in samples() {
        for desc in [false, true] {
            let encoded = encode_order_bytes(&key, desc);
            let first = 9 * (key.len() / 8) + key.len() % 8;
            let last = 9 * (key.len() / 8) + 8;
            for j in first..last {
                let mut bad = encoded.clone();
                bad[j] ^= 0x01;
                let mut data: &[u8] = &bad;
                assert_eq!(decode_bytes(&mut data, desc), Err(Error::KeyPadding));
                assert_eq!(data.len(), bad.len());
                assert_eq!(decode_bytes_in_place(&mut bad, desc), Err(Error::KeyPadding));
            }
        }
    }
}

#[test]
fn decode_errors() {
    let truncated = vec![1, 2, 3, 4, 5, 6, 7, 8];
    let mut data: &[u8] = &truncated;
    assert_eq!(decode_bytes(&mut data, false), Err(Error::UnexpectedEof));
    let full_then_nothing = vec![1, 2, 3, 4, 5, 6, 7, 8, 0xff];
    let mut data: &[u8] = &full_then_nothing;
    assert_eq!(decode_bytes(&mut data, false), Err(Error::UnexpectedEof));
    let bad_marker = vec![0, 0, 0, 0, 0, 0, 0, 0, 0x10];
    let mut data: &[u8] = &bad_marker;
    assert_eq!(decode_bytes(&mut data, false), Err(Error::KeyPadding));
    let bad_desc_marker = vec![0xff, 0xff, 0xff, 0xff, 0xff, 0xff, 0xff, 0xff, 0x09];
    let mut data: &[u8] = &bad_desc_marker;
    assert_eq!(decode_bytes(&mut data, true), Err(Error::KeyPadding));
}

#[test]
fn decode_in_place_matches_decode() {
    for key in samples() {
        for desc in [false, true] {
            let mut buf = Vec::new();
            write_bytes(&mut buf, &key, desc);
            buf.extend_from_slice(&[7, 7, 7]);
            assert_eq!(decode_bytes_in_place(&mut buf, desc), Ok(()));
            assert_eq!(buf, key);
        }
    }
    let mut short = vec![1, 2, 3];
    assert_eq!(decode_bytes_in_place(&mut short, false), Err(Error::UnexpectedEof));
}

#[test]
fn encoded_bytes_len_scans_markers() {
    for key in samples() {
        for desc in [false, true] {
            let mut encoded = encode_order_bytes(&key, desc);
            let run = encoded.len();
            encoded.extend_from_slice(&[1, 2, 3, 4, 5, 6, 7, 8, 9, 10]);
            assert_eq!(encoded_bytes_len(&encoded, desc), run);
        }
    }
    assert_eq!(encoded_bytes_len(&[1, 2, 3], false), 3);
    assert_eq!(encoded_bytes_len(&[1, 2, 3, 4, 5, 6, 7, 8, 0xff, 1], false), 10);
}

#[test]
fn compact_bytes_round_trip() {
    let mut buf = Vec::new();
    write_compact_bytes(&mut buf, &[5, 6, 7]);
    write_compact_bytes(&mut buf, &[]);
    assert_eq!(&buf[..4], &[0x03, 5, 6, 7]);
    assert_eq!(&buf[4..], &[0x00]);
    assert_eq!(encoded_compact_len(&buf), 4);
    let mut data: &[u8] = &buf;
    assert_eq!(decode_compact_bytes(&mut data).unwrap(), vec![5, 6, 7]);
    assert_eq!(decode_compact_bytes(&mut data).unwrap(), Vec::<u8>::new());
    assert!(data.is_empty());
}

#[test]
fn compact_single_byte_and_long_prefix() {
    let mut buf = Vec::new();
    write_compact_bytes(&mut buf, &[7]);
    assert_eq!(buf, vec![0x01, 7]);
    let payload = vec![9u8; 200];
    let mut buf = Vec::new();
    write_compact_bytes(&mut buf, &payload);
    assert_eq!(&buf[..2], &[0xc8, 0x01]);
    assert_eq!(encoded_compact_len(&buf), 202);
    let mut data: &[u8] = &buf;
    assert_eq!(decode_compact_bytes(&mut data).unwrap(), payload);
}

#[test]
fn compact_bytes_errors() {
    let short = vec![0x04, 1, 2, 3];
    let mut data: &[u8] = &short;
    assert_eq!(decode_compact_bytes(&mut data), Err(Error::UnexpectedEof));
    assert_eq!(data.len(), 4);
    let exact = vec![0x03, 1, 2, 3];
    let mut data: &[u8] = &exact;
    assert_eq!(decode_compact_bytes(&mut data).unwrap(), vec![1, 2, 3]);
    assert!(data.is_empty());
    let no_length = vec![0x80];
    let mut data: &[u8] = &no_length;
    assert_eq!(decode_compact_bytes(&mut data), Err(Error::UnexpectedEof));
    let long = vec![0xff; 12];
    let mut data: &[u8] = &long;
    assert_eq!(decode_compact_bytes(&mut data), Err(Error::Overflow));
}
