use vstd::prelude::*;

use crate::bytes;
use crate::bytes::memcomparable;
use crate::number;
use crate::number::{be_u64_of, u64_be, U64_SIZE};
use crate::order::{compare_bytes, lemma_lex_cmp_common_prefix, lex_cmp, lex_lt, ordering_of};

verus! {

/// A storage key: one encoded byte buffer. Whether it ends with an
/// eight-byte timestamp is a convention of the caller; the type does not
/// record it.
#[derive(Debug, Eq, Ord, Hash)]
pub struct Key(Vec<u8>);

impl View for Key {
    type V = Seq<u8>;

    closed spec fn view(&self) -> Seq<u8> {
        self.0@
    }
}

/// The timestamp that the eight bytes at the end of `k` stand for.
pub open spec fn ts_of(k: Seq<u8>) -> u64 {
    !be_u64_of(k.subrange(k.len() - 8, k.len() as int))
}

/// `k` without its eight-byte timestamp.
pub open spec fn user_part(k: Seq<u8>) -> Seq<u8> {
    k.subrange(0, k.len() - 8)
}

/// Relies on hex::encode_upper: two upper-case hexadecimal digits for each
/// byte, high nibble first.
#[verifier::external_body]
fn hex_upper(b: &[u8]) -> (r: String)
    ensures
        r@ == hex_upper_spec(b@),
{
    hex::encode_upper(b)
}

/// The upper-case hexadecimal digit of `n < 16`.
pub open spec fn hex_digit(n: u8) -> char {
    if n < 10 {
        (('0' as u8) + n) as char
    } else {
        (('A' as u8) + (n - 10)) as char
    }
}

/// Two upper-case hexadecimal digits for each byte of `b`, high nibble
/// first.
pub open spec fn hex_upper_spec(b: Seq<u8>) -> Seq<char>
    decreases b.len(),
{
    if b.len() == 0 {
        Seq::empty()
    } else {
        seq![hex_digit(b[0] / 16), hex_digit(b[0] % 16)] + hex_upper_spec(b.drop_first())
    }
}

/// Relies on Vec::capacity: the room the buffer has, never below its length.
#[verifier::external_body]
fn capacity_of(v: &Vec<u8>) -> (r: usize)
    ensures
        r >= v@.len(),
{
    v.capacity()
}

/// Whether `a[from..to]` and `b[from..to]` hold the same bytes.
fn range_eq(a: &[u8], b: &[u8], from: usize, to: usize) -> (r: bool)
    requires
        from <= to <= a@.len(),
        to <= b@.len(),
    ensures
        r == (a@.subrange(from as int, to as int) == b@.subrange(from as int, to as int)),
{
    let mut i = from;
    while i < to
        invariant
            from <= i <= to <= a@.len(),
            to <= b@.len(),
            a@.subrange(from as int, i as int) == b@.subrange(from as int, i as int),
        decreases to - i,
    {
        if a[i] != b[i] {
            assert(a@.subrange(from as int, to as int)[i - from] != b@.subrange(
                from as int,
                to as int,
            )[i - from]);
            return false;
        }
        i = i + 1;
        assert(a@.subrange(from as int, i as int) =~= b@.subrange(from as int, i as int)) by {
            assert(a@.subrange(from as int, i - 1) == b@.subrange(from as int, i - 1));
            assert forall|k: int| from <= k < i implies a@[k] == b@[k] by {
                if k < i - 1 {
                    assert(a@.subrange(from as int, i - 1)[k - from] == b@.subrange(
                        from as int,
                        i - 1,
                    )[k - from]);
                }
            }
        }
    }
    true
}

/// The big-endian word held by `s[from..from+8]`.
fn read_u64_at(s: &[u8], from: usize) -> (r: u64)
    requires
        from + 8 <= s@.len(),
    ensures
        r == be_u64_of(s@.subrange(from as int, from + 8)),
{
    let len = s.len();
    let mut cursor = vstd::slice::slice_subrange(s, from, len);
    match number::decode_u64(&mut cursor) {
        Ok(v) => v,
        Err(_) => 0,
    }
}

impl Key {
    /// The key for the user key `key`: its ascending memcomparable form.
    pub fn from_raw(key: &[u8]) -> (r: Key)
        ensures
            r@ == memcomparable(key@, false),
    {
        let len = key.len();
        let groups = len / 8 + 1;
        let cap = if groups <= (usize::MAX - U64_SIZE) / 9 {
            groups * 9 + U64_SIZE
        } else {
            0
        };
        let mut encoded = Vec::with_capacity(cap);
        bytes::write_bytes(&mut encoded, key, false);
        assert(encoded@ =~= memcomparable(key@, false));
        Key(encoded)
    }

    /// The key whose encoded form is `encoded_key`.
    pub fn from_encoded(encoded_key: Vec<u8>) -> (r: Key)
        ensures
            r@ == encoded_key@,
    {
        Key(encoded_key)
    }

    /// The key whose encoded form is a copy of `encoded_key`, with room
    /// reserved for a timestamp.
    pub fn from_encoded_slice(encoded_key: &[u8]) -> (r: Key)
        ensures
            r@ == encoded_key@,
    {
        let len = encoded_key.len();
        let cap = if len <= usize::MAX - U64_SIZE {
            len + U64_SIZE
        } else {
            len
        };
        let mut k = Vec::with_capacity(cap);
        k.extend_from_slice(encoded_key);
        assert(k@ =~= encoded_key@);
        Key(k)
    }

    /// The encoded form of this key.
    pub fn as_encoded(&self) -> (r: &Vec<u8>)
        ensures
            r@ == self@,
    {
        &self.0
    }

    /// The encoded form of this key, moved out.
    pub fn into_encoded(self) -> (r: Vec<u8>)
        ensures
            r@ == self@,
    {
        self.0
    }

    /// This key followed by the descending encoding of `ts`: larger
    /// timestamps sort earlier.
    pub fn append_ts(self, ts: u64) -> (r: Key)
        ensures
            r@ == self@ + u64_be(!ts),
    {
        let mut encoded = self.0;
        number::encode_u64_desc(&mut encoded, ts);
        Key(encoded)
    }

    /// The timestamp at the end of this key.
    pub fn decode_ts(&self) -> (r: u64)
        requires
            self@.len() >= 8,
        ensures
            r == ts_of(self@),
    {
        Self::decode_ts_from(&self.0)
    }

    /// This key without its timestamp.
    pub fn truncate_ts(self) -> (r: Key)
        requires
            self@.len() >= 8,
        ensures
            r@ == user_part(self@),
    {
        let mut encoded = self.0;
        let len = encoded.len();
        encoded.truncate(len - U64_SIZE);
        assert(encoded@ =~= user_part(self@));
        Key(encoded)
    }

    /// Splits a timestamped key into its user key and its timestamp.
    pub fn split_on_ts_for(key: &[u8]) -> (r: (&[u8], u64))
        requires
            key@.len() >= 8,
        ensures
            r.0@ == user_part(key@),
            r.1 == ts_of(key@),
    {
        let pos = key.len() - U64_SIZE;
        let k = vstd::slice::slice_subrange(key, 0, pos);
        (k, Self::decode_ts_from(key))
    }

    /// The user key of a timestamped key.
    pub fn truncate_ts_for(key: &[u8]) -> (r: &[u8])
        requires
            key@.len() >= 8,
        ensures
            r@ == user_part(key@),
    {
        vstd::slice::slice_subrange(key, 0, key.len() - U64_SIZE)
    }

    /// The timestamp of a timestamped key.
    pub fn decode_ts_from(key: &[u8]) -> (r: u64)
        requires
            key@.len() >= 8,
        ensures
            r == ts_of(key@),
    {
        let len = key.len();
        !read_u64_at(key, len - U64_SIZE)
    }

    /// Whether `ts_encoded_key` is `user_key` followed by eight bytes. The
    /// last eight bytes of the user key are compared as one word first.
    pub fn is_user_key_eq(ts_encoded_key: &[u8], user_key: &[u8]) -> (r: bool)
        ensures
            r == (ts_encoded_key@.len() == user_key@.len() + 8 && user_part(ts_encoded_key@)
                == user_key@),
    {
        let user_key_len = user_key.len();
        if ts_encoded_key.len() < U64_SIZE || ts_encoded_key.len() - U64_SIZE != user_key_len {
            return false;
        }
        let ghost t = ts_encoded_key@;
        let ghost u = user_key@;
        if user_key_len >= U64_SIZE {
            let left = read_u64_at(ts_encoded_key, user_key_len - 8);
            let right = read_u64_at(user_key, user_key_len - 8);
            proof {
                number::lemma_be_u64_of_bytes(t.subrange(user_key_len - 8, user_key_len as int));
                number::lemma_be_u64_of_bytes(u.subrange(user_key_len - 8, user_key_len as int));
            }
            if left != right {
                assert(user_part(t) != u) by {
                    if user_part(t) == u {
                        assert(t.subrange(user_key_len - 8, user_key_len as int) =~= u.subrange(
                            user_key_len - 8,
                            user_key_len as int,
                        )) by {
                            assert forall|k: int|
                                user_key_len - 8 <= k < user_key_len implies t[k] == u[k] by {
                                assert(user_part(t)[k] == u[k]);
                            }
                        }
                    }
                }
                return false;
            }
            let same = range_eq(ts_encoded_key, user_key, 0, user_key_len - 8);
            assert(same == (user_part(t) == u)) by {
                if same {
                    assert(user_part(t) =~= u) by {
                        assert forall|k: int| 0 <= k < user_key_len implies user_part(t)[k]
                            == u[k] by {
                            if k < user_key_len - 8 {
                                assert(t.subrange(0, user_key_len - 8)[k] == u.subrange(
                                    0,
                                    user_key_len - 8,
                                )[k]);
                            } else {
                                assert(t.subrange(user_key_len - 8, user_key_len as int)[k - (
                                user_key_len - 8)] == u.subrange(
                                    user_key_len - 8,
                                    user_key_len as int,
                                )[k - (user_key_len - 8)]);
                            }
                        }
                    }
                } else if user_part(t) == u {
                    assert(t.subrange(0, user_key_len - 8) =~= u.subrange(0, user_key_len - 8))
                        by {
                        assert forall|k: int| 0 <= k < user_key_len - 8 implies t[k] == u[k] by {
                            assert(user_part(t)[k] == u[k]);
                        }
                    }
                }
            }
            same
        } else {
            let same = range_eq(ts_encoded_key, user_key, 0, user_key_len);
            assert(u.subrange(0, user_key_len as int) =~= u);
            assert(t.subrange(0, user_key_len as int) =~= user_part(t));
            same
        }
    }

    /// The encoded form of this key in upper-case hexadecimal.
    pub fn to_hex_upper(&self) -> (r: String)
        ensures
            r@ == hex_upper_spec(self@),
    {
        hex_upper(self.0.as_slice())
    }
}

impl Clone for Key {
    /// A copy of this key that keeps the reserved room of the source key, so
    /// that a timestamp can still be appended without moving the buffer.
    fn clone(&self) -> (r: Self)
        ensures
            r@ == self@,
    {
        let mut key = Vec::with_capacity(capacity_of(&self.0));
        key.extend_from_slice(self.0.as_slice());
        assert(key@ =~= self@);
        Key(key)
    }
}

impl PartialEq for Key {
    fn eq(&self, other: &Key) -> (r: bool) {
        let a = self.0.as_slice();
        let b = other.0.as_slice();
        if a.len() != b.len() {
            return false;
        }
        let same = range_eq(a, b, 0, a.len());
        assert(a@.subrange(0, a@.len() as int) =~= a@);
        assert(b@.subrange(0, b@.len() as int) =~= b@);
        same
    }
}

impl PartialOrd for Key {
    /// Keys compare as their encoded bytes do, unsigned and
    /// lexicographically.
    fn partial_cmp(&self, other: &Key) -> Option<core::cmp::Ordering> {
        Some(compare_bytes(self.0.as_slice(), other.0.as_slice()))
    }
}

impl vstd::std_specs::cmp::PartialOrdSpecImpl for Key {
    open spec fn obeys_partial_cmp_spec() -> bool {
        true
    }

    open spec fn partial_cmp_spec(&self, other: &Key) -> Option<core::cmp::Ordering> {
        Some(ordering_of(lex_cmp(self@, other@)))
    }
}

impl vstd::std_specs::cmp::PartialEqSpecImpl for Key {
    open spec fn obeys_eq_spec() -> bool {
        true
    }

    open spec fn eq_spec(&self, other: &Key) -> bool {
        self@ == other@
    }
}


/// Two versions of one key: the one with the larger timestamp sorts first.
pub proof fn lemma_append_ts_newest_first(k: Seq<u8>, ts1: u64, ts2: u64)
    requires
        ts1 < ts2,
    ensures
        lex_lt(k + u64_be(!ts2), k + u64_be(!ts1)),
{
    number::lemma_u64_desc_order(ts1, ts2);
    lemma_lex_cmp_common_prefix(k, u64_be(!ts2), u64_be(!ts1));
}

/// Appending a timestamp and reading it back gives the timestamp; removing
/// it gives the key back.
pub proof fn lemma_append_ts_round_trip(k: Seq<u8>, ts: u64)
    ensures
        ts_of(k + u64_be(!ts)) == ts,
        user_part(k + u64_be(!ts)) == k,
{
    let t = k + u64_be(!ts);
    number::lemma_u64_be_round_trip(!ts);
    assert(t.subrange(t.len() - 8, t.len() as int) =~= u64_be(!ts));
    assert(user_part(t) =~= k);
    assert(!(!ts) == ts) by (bit_vector);
}

} // verus!
