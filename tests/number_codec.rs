use nacs::number::{
    decode_i32_le, decode_i64, decode_i64_desc, decode_i64_le, decode_u16, decode_u16_le,
    decode_u32, decode_u32_le, decode_u64, decode_u64_desc, decode_u64_le, decode_var_i64,
    decode_var_u64, encode_i32_le, encode_i64, encode_i64_desc, encode_i64_le, encode_u16,
    encode_u16_le, encode_u32, encode_u32_le, encode_u64, encode_u64_desc, encode_u64_le,
    encode_var_i64, encode_var_u64, order_decode_f64_bits, order_encode_f64_bits, read_slice,
    read_u8,
};
use nacs::Error;

fn var_u64_bytes(v: u64) -> Vec<u8> {
    let mut buf = Vec::new();
    encode_var_u64(&mut buf, v);
    buf
}

fn var_i64_bytes(v: i64) -> Vec<u8> {
    let mut buf = Vec::new();
    encode_var_i64(&mut buf, v);
    buf
}

#[test]
fn var_u64_boundary_values_round_trip() {
    let values: [u64; 8] = [0, 1, 127, 128, (1 << 32) - 1, (1 << 63) - 1, 1 << 63, u64::MAX];
    for v in values {
        let buf = var_u64_bytes(v);
        assert!(buf.len() <= 10);
        let mut data: &[u8] = &buf;
        assert_eq!(decode_var_u64(&mut data).unwrap(), v);
        assert!(data.is_empty());
    }
}

#[test]
fn var_i64_boundary_values_round_trip() {
    let values: [i64; 10] = [0, 1, 127, 128, (1 << 32) - 1, i64::MAX, -1, -128, i64::MIN, -300];
    for v in values {
        let buf = var_i64_bytes(v);
        assert!(buf.len() <= 10);
        let mut data: &[u8] = &buf;
        assert_eq!(decode_var_i64(&mut data).unwrap(), v);
        assert!(data.is_empty());
    }
}

#[test]
fn var_u64_exact_bytes() {
    assert_eq!(var_u64_bytes(0), vec![0x00]);
    assert_eq!(var_u64_bytes(127), vec![0x7f]);
    assert_eq!(var_u64_bytes(128), vec![0x80, 0x01]);
    assert_eq!(var_u64_bytes(300), vec![0xac, 0x02]);
    assert_eq!(
        var_u64_bytes(u64::MAX),
        vec![0xff, 0xff, 0xff, 0xff, 0xff, 0xff, 0xff, 0xff, 0xff, 0x01]
    );
}

#[test]
fn var_i64_zigzag_bytes() {
    assert_eq!(var_i64_bytes(0), vec![0x00]);
    assert_eq!(var_i64_bytes(-1), vec![0x01]);
    assert_eq!(var_i64_bytes(1), vec![0x02]);
    assert_eq!(var_i64_bytes(-2), vec![0x03]);
    assert_eq!(var_i64_bytes(64), vec![0x80, 0x01]);
}

#[test]
fn var_u64_decode_leaves_trailing_bytes() {
    let buf = vec![0xac, 0x02, 0x07, 0x09];
    let mut data: &[u8] = &buf;
    assert_eq!(decode_var_u64(&mut data).unwrap(), 300);
    assert_eq!(data, &[0x07, 0x09][..]);
}

#[test]
fn var_u64_decode_errors() {
    let empty: Vec<u8> = Vec::new();
    let mut data: &[u8] = &empty;
    assert_eq!(decode_var_u64(&mut data), Err(Error::UnexpectedEof));

    let unfinished = vec![0x80, 0x81];
    let mut data: &[u8] = &unfinished;
    assert_eq!(decode_var_u64(&mut data), Err(Error::UnexpectedEof));
    assert_eq!(data.len(), 2);

    let too_long = vec![0xff; 11];
    let mut data: &[u8] = &too_long;
    assert_eq!(decode_var_u64(&mut data), Err(Error::Overflow));
    assert_eq!(data.len(), 11);

    let mut tenth_too_big = vec![0xff; 9];
    tenth_too_big.push(0x02);
    let mut data: &[u8] = &tenth_too_big;
    assert_eq!(decode_var_u64(&mut data), Err(Error::Overflow));
}

#[test]
fn var_u64_accepts_longest_form() {
    let mut buf = vec![0xff; 9];
    buf.push(0x01);
    let mut data: &[u8] = &buf;
    assert_eq!(decode_var_u64(&mut data).unwrap(), u64::MAX);
    assert!(data.is_empty());
}

#[test]
fn fixed_u64_bytes() {
    let mut buf = Vec::new();
    encode_u64(&mut buf, 0x0102030405060708);
    assert_eq!(buf, vec![1, 2, 3, 4, 5, 6, 7, 8]);
    let mut buf = Vec::new();
    encode_u64_desc(&mut buf, 0x0102030405060708);
    assert_eq!(buf, vec![0xfe, 0xfd, 0xfc, 0xfb, 0xfa, 0xf9, 0xf8, 0xf7]);
    let mut data: &[u8] = &buf;
    assert_eq!(decode_u64_desc(&mut data).unwrap(), 0x0102030405060708);
}

#[test]
fn fixed_i64_bytes_and_round_trip() {
    let mut buf = Vec::new();
    encode_i64(&mut buf, -1);
    assert_eq!(buf, vec![0x7f, 0xff, 0xff, 0xff, 0xff, 0xff, 0xff, 0xff]);
    let mut buf = Vec::new();
    encode_i64(&mut buf, 0);
    assert_eq!(buf, vec![0x80, 0, 0, 0, 0, 0, 0, 0]);
    for v in [i64::MIN, -5, 0, 7, i64::MAX] {
        let mut buf = Vec::new();
        encode_i64(&mut buf, v);
        encode_i64_desc(&mut buf, v);
        let mut data: &[u8] = &buf;
        assert_eq!(decode_i64(&mut data).unwrap(), v);
        assert_eq!(decode_i64_desc(&mut data).unwrap(), v);
        assert!(data.is_empty());
    }
}

#[test]
fn fixed_i64_order_preserved() {
    let values = [i64::MIN, -300, -1, 0, 1, 255, 256, i64::MAX];
    for x in values {
        for y in values {
            let mut ex = Vec::new();
            encode_i64(&mut ex, x);
            let mut ey = Vec::new();
            encode_i64(&mut ey, y);
            assert_eq!(x < y, ex < ey);
            let mut dx = Vec::new();
            encode_i64_desc(&mut dx, x);
            let mut dy = Vec::new();
            encode_i64_desc(&mut dy, y);
            assert_eq!(x < y, dx > dy);
        }
    }
}

#[test]
fn fixed_f64_order_preserved_through_bits() {
    let values = [f64::NEG_INFINITY, -2.5, -0.0, 0.0, 1.0e-300, 1.5, 3.0e10, f64::INFINITY];
    for (i, x) in values.iter().enumerate() {
        let ox = order_encode_f64_bits(x.to_bits());
        assert_eq!(f64::from_bits(order_decode_f64_bits(ox)).to_bits(), x.to_bits());
        for y in values.iter().skip(i + 1) {
            let oy = order_encode_f64_bits(y.to_bits());
            let mut ex = Vec::new();
            encode_u64(&mut ex, ox);
            let mut ey = Vec::new();
            encode_u64(&mut ey, oy);
            assert!(ex < ey);
        }
    }
}

#[test]
fn fixed_decode_short_input() {
    let buf = vec![1, 2, 3];
    let mut data: &[u8] = &buf;
    assert_eq!(decode_u64(&mut data), Err(Error::UnexpectedEof));
    assert_eq!(decode_u32(&mut data), Err(Error::UnexpectedEof));
    assert_eq!(data.len(), 3);
    assert_eq!(decode_u16(&mut data).unwrap(), 0x0102);
    assert_eq!(data, &[3][..]);
}

#[test]
fn fixed_narrow_and_little_endian() {
    let mut buf = Vec::new();
    encode_u32(&mut buf, 0x01020304);
    encode_u16(&mut buf, 0x0506);
    encode_u16_le(&mut buf, 0x0708);
    encode_u32_le(&mut buf, 0x090a0b0c);
    encode_i32_le(&mut buf, -2);
    encode_u64_le(&mut buf, 0x1112131415161718);
    encode_i64_le(&mut buf, -3);
    assert_eq!(&buf[..10], &[1, 2, 3, 4, 5, 6, 8, 7, 0x0c, 0x0b]);
    let mut data: &[u8] = &buf;
    assert_eq!(decode_u32(&mut data).unwrap(), 0x01020304);
    assert_eq!(decode_u16(&mut data).unwrap(), 0x0506);
    assert_eq!(decode_u16_le(&mut data).unwrap(), 0x0708);
    assert_eq!(decode_u32_le(&mut data).unwrap(), 0x090a0b0c);
    assert_eq!(decode_i32_le(&mut data).unwrap(), -2);
    assert_eq!(decode_u64_le(&mut data).unwrap(), 0x1112131415161718);
    assert_eq!(decode_i64_le(&mut data).unwrap(), -3);
    assert!(data.is_empty());
}

#[test]
fn read_slice_and_read_u8() {
    let buf = vec![9, 8, 7];
    let mut data: &[u8] = &buf;
    assert_eq!(read_u8(&mut data).unwrap(), 9);
    assert_eq!(read_slice(&mut data, 2).unwrap(), &[8, 7][..]);
    assert_eq!(read_u8(&mut data), Err(Error::UnexpectedEof));
    assert_eq!(read_slice(&mut data, 1), Err(Error::UnexpectedEof));
}

#[test]
fn error_maybe_clone() {
    assert_eq!(Error::KeyPadding.maybe_clone(), Some(Error::KeyPadding));
    assert_eq!(Error::KeyLength.maybe_clone(), Some(Error::KeyLength));
    assert_eq!(Error::KeyNotFound.maybe_clone(), Some(Error::KeyNotFound));
    assert_eq!(Error::unexpected_eof().maybe_clone(), None);
    assert_eq!(Error::Overflow.maybe_clone(), None);
}
