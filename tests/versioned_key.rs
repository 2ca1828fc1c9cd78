use nacs::bytes::encode_bytes;
use nacs::number::encode_u64_desc;
use nacs::Key;

fn ts_key(user: &[u8], ts: u64) -> Vec<u8> {
    let mut k = encode_bytes(user);
    encode_u64_desc(&mut k, ts);
    k
}

#[test]
fn user_key_eq_on_timestamped_key() {
    let user = encode_bytes(b"abc");
    let timestamped = ts_key(b"abc", 42);
    assert!(Key::is_user_key_eq(&timestamped, &user));
    for i in 0..user.len() {
        let mut changed = timestamped.clone();
        changed[i] ^= 0x20;
        assert!(!Key::is_user_key_eq(&changed, &user));
    }
    assert!(!Key::is_user_key_eq(&user, &user));
    assert!(!Key::is_user_key_eq(&timestamped[1..], &user));
}

#[test]
fn user_key_eq_small_and_eight_byte_keys() {
    let user = vec![1, 2, 3, 4, 5, 6, 7, 8];
    let mut t = user.clone();
    t.extend_from_slice(&[0; 8]);
    assert!(Key::is_user_key_eq(&t, &user));
    t[0] = 9;
    assert!(!Key::is_user_key_eq(&t, &user));
    let small = vec![1, 2];
    let mut t = small.clone();
    t.extend_from_slice(&[0xff; 8]);
    assert!(Key::is_user_key_eq(&t, &small));
    t[1] = 0;
    assert!(!Key::is_user_key_eq(&t, &small));
    assert!(Key::is_user_key_eq(&[0; 8], &[]));
    assert!(!Key::is_user_key_eq(&[0; 7], &[]));
}

#[test]
fn append_ts_newest_first() {
    let base = Key::from_raw(b"row");
    for (ts1, ts2) in [(0u64, 1u64), (5, 500), (u64::MAX - 1, u64::MAX)] {
        let k1 = base.clone().append_ts(ts1);
        let k2 = base.clone().append_ts(ts2);
        assert!(k1.as_encoded() > k2.as_encoded());
    }
}

#[test]
fn timestamp_round_trip() {
    let key = Key::from_raw(b"abc");
    let raw = key.as_encoded().clone();
    assert_eq!(raw, encode_bytes(b"abc"));
    let stamped = key.append_ts(0x0102030405060708);
    assert_eq!(stamped.as_encoded().len(), raw.len() + 8);
    assert_eq!(stamped.decode_ts(), 0x0102030405060708);
    assert_eq!(Key::decode_ts_from(stamped.as_encoded()), 0x0102030405060708);
    let (user, ts) = Key::split_on_ts_for(stamped.as_encoded());
    assert_eq!(user, &raw[..]);
    assert_eq!(ts, 0x0102030405060708);
    assert_eq!(Key::truncate_ts_for(stamped.as_encoded()), &raw[..]);
    let bare = stamped.truncate_ts();
    assert_eq!(bare.into_encoded(), raw);
}

#[test]
fn constructors_keep_bytes() {
    let k = Key::from_encoded(vec![1, 2, 3]);
    assert_eq!(k.as_encoded(), &vec![1, 2, 3]);
    let s = Key::from_encoded_slice(&[4, 5]);
    assert_eq!(s.clone().into_encoded(), vec![4, 5]);
    assert!(s == Key::from_encoded(vec![4, 5]));
    assert!(s != k);
    let c = Key::from_raw(&[]).clone();
    assert_eq!(c.into_encoded(), vec![0, 0, 0, 0, 0, 0, 0, 0, 0xf7]);
}

#[test]
fn key_hex_upper() {
    let k = Key::from_encoded(vec![0x00, 0x1f, 0xab, 0xff]);
    assert_eq!(k.to_hex_upper(), "001FABFF");
    assert_eq!(Key::from_encoded(vec![]).to_hex_upper(), "");
}

#[test]
fn keys_order_by_encoded_bytes() {
    let a = Key::from_raw(b"a");
    let ab = Key::from_raw(b"ab");
    let b = Key::from_raw(b"b");
    assert!(a < ab);
    assert!(ab < b);
    assert!(a.partial_cmp(&a.clone()) == Some(std::cmp::Ordering::Equal));
    let newer = a.clone().append_ts(9);
    let older = a.clone().append_ts(3);
    assert!(newer < older);
    assert!(older < ab.clone().append_ts(100));
    assert_eq!(
        Key::from_encoded(vec![1, 2]).partial_cmp(&Key::from_encoded(vec![1, 2, 0])),
        Some(std::cmp::Ordering::Less)
    );
}
