use vstd::prelude::*;

pub use crate::error::{Error, Result};
use crate::order::{first_diff_within, lemma_lex_cmp_equal, lemma_lex_cmp_first_diff, lex_lt};

verus! {

/// Splits the first `size` bytes off the front of `data`.
pub fn read_slice<'a>(data: &mut &'a [u8], size: usize) -> (r: Result<&'a [u8]>)
    ensures
        old(data)@.len() >= size ==> {
            &&& r matches Ok(s) && s@ == old(data)@.subrange(0, size as int)
            &&& final(data)@ == old(data)@.subrange(size as int, old(data)@.len() as int)
        },
        old(data)@.len() < size ==> r == Err::<&[u8], Error>(Error::UnexpectedEof) && final(data)@
            == old(data)@,
{
    if data.len() >= size {
        let buf = vstd::slice::slice_subrange(*data, 0, size);
        *data = vstd::slice::slice_subrange(*data, size, data.len());
        Ok(buf)
    } else {
        Err(Error::unexpected_eof())
    }
}

/// Reads one byte off the front of `data`.
pub fn read_u8(data: &mut &[u8]) -> (r: Result<u8>)
    ensures
        old(data)@.len() >= 1 ==> r == Ok::<u8, Error>(old(data)@[0]) && final(data)@ == old(
            data,
        )@.drop_first(),
        old(data)@.len() == 0 ==> r == Err::<u8, Error>(Error::UnexpectedEof) && final(data)@
            == old(data)@,
{
    if !data.is_empty() {
        let v = data[0];
        *data = vstd::slice::slice_subrange(*data, 1, data.len());
        Ok(v)
    } else {
        Err(Error::unexpected_eof())
    }
}


/// The sign bit of a 64-bit word.
pub const SIGN_MARK: u64 = 0x8000000000000000;

/// The longest encoding of a variable-length `i64`.
pub const MAX_VAR_I64_LEN: usize = 10;

/// The longest encoding of a variable-length `u64`.
pub const MAX_VAR_U64_LEN: usize = 10;

pub const U64_SIZE: usize = 8;

pub const I64_SIZE: usize = 8;

pub const F64_SIZE: usize = 8;

/// The eight bytes of `v`, most significant first.
pub open spec fn u64_be(v: u64) -> Seq<u8> {
    seq![
        (v >> 56) as u8,
        (v >> 48) as u8,
        (v >> 40) as u8,
        (v >> 32) as u8,
        (v >> 24) as u8,
        (v >> 16) as u8,
        (v >> 8) as u8,
        v as u8,
    ]
}

/// The eight bytes of `v`, least significant first.
pub open spec fn u64_le(v: u64) -> Seq<u8> {
    seq![
        v as u8,
        (v >> 8) as u8,
        (v >> 16) as u8,
        (v >> 24) as u8,
        (v >> 32) as u8,
        (v >> 40) as u8,
        (v >> 48) as u8,
        (v >> 56) as u8,
    ]
}

/// The four bytes of `v`, most significant first.
pub open spec fn u32_be(v: u32) -> Seq<u8> {
    seq![(v >> 24) as u8, (v >> 16) as u8, (v >> 8) as u8, v as u8]
}

/// The four bytes of `v`, least significant first.
pub open spec fn u32_le(v: u32) -> Seq<u8> {
    seq![v as u8, (v >> 8) as u8, (v >> 16) as u8, (v >> 24) as u8]
}

/// The two bytes of `v`, most significant first.
pub open spec fn u16_be(v: u16) -> Seq<u8> {
    seq![(v >> 8) as u8, v as u8]
}

/// The two bytes of `v`, least significant first.
pub open spec fn u16_le(v: u16) -> Seq<u8> {
    seq![v as u8, (v >> 8) as u8]
}

/// The word whose big-endian bytes are the first eight of `s`.
pub open spec fn be_u64_of(s: Seq<u8>) -> u64 {
    (s[0] as u64) << 56 | (s[1] as u64) << 48 | (s[2] as u64) << 40 | (s[3] as u64) << 32 | (
    s[4] as u64) << 24 | (s[5] as u64) << 16 | (s[6] as u64) << 8 | (s[7] as u64)
}

/// The word whose little-endian bytes are the first eight of `s`.
pub open spec fn le_u64_of(s: Seq<u8>) -> u64 {
    (s[7] as u64) << 56 | (s[6] as u64) << 48 | (s[5] as u64) << 40 | (s[4] as u64) << 32 | (
    s[3] as u64) << 24 | (s[2] as u64) << 16 | (s[1] as u64) << 8 | (s[0] as u64)
}

pub open spec fn be_u32_of(s: Seq<u8>) -> u32 {
    (s[0] as u32) << 24 | (s[1] as u32) << 16 | (s[2] as u32) << 8 | (s[3] as u32)
}

pub open spec fn le_u32_of(s: Seq<u8>) -> u32 {
    (s[3] as u32) << 24 | (s[2] as u32) << 16 | (s[1] as u32) << 8 | (s[0] as u32)
}

pub open spec fn be_u16_of(s: Seq<u8>) -> u16 {
    (s[0] as u16) << 8 | (s[1] as u16)
}

pub open spec fn le_u16_of(s: Seq<u8>) -> u16 {
    (s[1] as u16) << 8 | (s[0] as u16)
}

/// Maps an `i64` to a `u64` so that unsigned order matches signed order.
pub open spec fn order_i64(v: i64) -> u64 {
    (v as u64) ^ SIGN_MARK
}

/// Inverse of `order_i64`.
pub open spec fn unorder_i64(u: u64) -> i64 {
    (u ^ SIGN_MARK) as i64
}

/// Reading a word back from its eight big-endian bytes gives the word.
pub proof fn lemma_u64_be_round_trip(v: u64)
    ensures
        be_u64_of(u64_be(v)) == v,
        u64_be(v).len() == 8,
{
    let b = u64_be(v);
    assert(be_u64_of(b) == ((v >> 56) as u8 as u64) << 56 | ((v >> 48) as u8 as u64) << 48 | ((v
        >> 40) as u8 as u64) << 40 | ((v >> 32) as u8 as u64) << 32 | ((v >> 24) as u8 as u64)
        << 24 | ((v >> 16) as u8 as u64) << 16 | ((v >> 8) as u8 as u64) << 8 | (v as u8 as u64));
    assert(((v >> 56) as u8 as u64) << 56 | ((v >> 48) as u8 as u64) << 48 | ((v >> 40) as u8
        as u64) << 40 | ((v >> 32) as u8 as u64) << 32 | ((v >> 24) as u8 as u64) << 24 | ((v
        >> 16) as u8 as u64) << 16 | ((v >> 8) as u8 as u64) << 8 | (v as u8 as u64) == v)
        by (bit_vector);
}

/// Eight bytes are the big-endian bytes of the word they are read as.
pub proof fn lemma_be_u64_of_bytes(s: Seq<u8>)
    requires
        s.len() == 8,
    ensures
        u64_be(be_u64_of(s)) == s,
{
    let (b0, b1, b2, b3, b4, b5, b6, b7) = (s[0], s[1], s[2], s[3], s[4], s[5], s[6], s[7]);
    let v = be_u64_of(s);
    assert(v == (b0 as u64) << 56 | (b1 as u64) << 48 | (b2 as u64) << 40 | (b3 as u64) << 32 | (
    b4 as u64) << 24 | (b5 as u64) << 16 | (b6 as u64) << 8 | (b7 as u64));
    assert((v >> 56) as u8 == b0 && (v >> 48) as u8 == b1 && (v >> 40) as u8 == b2 && (v >> 32)
        as u8 == b3 && (v >> 24) as u8 == b4 && (v >> 16) as u8 == b5 && (v >> 8) as u8 == b6
        && v as u8 == b7) by (bit_vector)
        requires
            v == (b0 as u64) << 56 | (b1 as u64) << 48 | (b2 as u64) << 40 | (b3 as u64) << 32 | (
            b4 as u64) << 24 | (b5 as u64) << 16 | (b6 as u64) << 8 | (b7 as u64),
    ;
    assert(u64_be(v) =~= s);
}

/// Two words with the same big-endian bytes are equal.
pub proof fn lemma_u64_be_injective(a: u64, b: u64)
    ensures
        u64_be(a) == u64_be(b) <==> a == b,
{
    if u64_be(a) == u64_be(b) {
        lemma_u64_be_round_trip(a);
        lemma_u64_be_round_trip(b);
    }
}

/// The order-preserving map of `i64` is undone by `unorder_i64`.
pub proof fn lemma_order_i64_round_trip(v: i64)
    ensures
        unorder_i64(order_i64(v)) == v,
{
    assert((((v as u64) ^ 0x8000000000000000u64) ^ 0x8000000000000000u64) as i64 == v)
        by (bit_vector);
}

/// Signed order of two `i64` values is unsigned order of their images.
pub proof fn lemma_order_i64_monotone(x: i64, y: i64)
    ensures
        x < y <==> order_i64(x) < order_i64(y),
{
    assert(x < y <==> ((x as u64) ^ 0x8000000000000000u64) < ((y as u64) ^ 0x8000000000000000u64))
        by (bit_vector);
}


/// What a fixed-width read of `n` bytes leaves: `v` and the input advanced
/// past the `n` bytes when they are there, otherwise `UnexpectedEof` and the
/// input untouched.
pub open spec fn fixed_read<T>(before: Seq<u8>, after: Seq<u8>, r: Result<T>, n: int, v: T) -> bool {
    if before.len() >= n {
        r == Ok::<T, Error>(v) && after == before.subrange(n, before.len() as int)
    } else {
        r == Err::<T, Error>(Error::UnexpectedEof) && after == before
    }
}

/// Appends `v` in big-endian order; larger values sort later.
pub fn encode_u64(buf: &mut Vec<u8>, v: u64)
    ensures
        final(buf)@ == old(buf)@ + u64_be(v),
{
    buf.push((v >> 56) as u8);
    buf.push((v >> 48) as u8);
    buf.push((v >> 40) as u8);
    buf.push((v >> 32) as u8);
    buf.push((v >> 24) as u8);
    buf.push((v >> 16) as u8);
    buf.push((v >> 8) as u8);
    buf.push(v as u8);
    assert(buf@ =~= old(buf)@ + u64_be(v));
}

/// Appends the complement of `v` in big-endian order; larger values sort
/// earlier.
pub fn encode_u64_desc(buf: &mut Vec<u8>, v: u64)
    ensures
        final(buf)@ == old(buf)@ + u64_be(!v),
{
    encode_u64(buf, !v);
}

/// Appends `v` so that the bytes sort as the signed values do.
pub fn encode_i64(buf: &mut Vec<u8>, v: i64)
    ensures
        final(buf)@ == old(buf)@ + u64_be(order_i64(v)),
{
    encode_u64(buf, (v as u64) ^ SIGN_MARK);
}

/// Appends `v` so that the bytes sort in reverse of the signed values.
pub fn encode_i64_desc(buf: &mut Vec<u8>, v: i64)
    ensures
        final(buf)@ == old(buf)@ + u64_be(!order_i64(v)),
{
    encode_u64_desc(buf, (v as u64) ^ SIGN_MARK);
}

/// Appends `v` in big-endian order.
pub fn encode_u32(buf: &mut Vec<u8>, v: u32)
    ensures
        final(buf)@ == old(buf)@ + u32_be(v),
{
    buf.push((v >> 24) as u8);
    buf.push((v >> 16) as u8);
    buf.push((v >> 8) as u8);
    buf.push(v as u8);
    assert(buf@ =~= old(buf)@ + u32_be(v));
}

/// Appends `v` in big-endian order.
pub fn encode_u16(buf: &mut Vec<u8>, v: u16)
    ensures
        final(buf)@ == old(buf)@ + u16_be(v),
{
    buf.push((v >> 8) as u8);
    buf.push(v as u8);
    assert(buf@ =~= old(buf)@ + u16_be(v));
}

/// Appends `v` in little-endian order.
pub fn encode_u16_le(buf: &mut Vec<u8>, v: u16)
    ensures
        final(buf)@ == old(buf)@ + u16_le(v),
{
    buf.push(v as u8);
    buf.push((v >> 8) as u8);
    assert(buf@ =~= old(buf)@ + u16_le(v));
}

/// Appends `v` in little-endian order.
pub fn encode_u32_le(buf: &mut Vec<u8>, v: u32)
    ensures
        final(buf)@ == old(buf)@ + u32_le(v),
{
    buf.push(v as u8);
    buf.push((v >> 8) as u8);
    buf.push((v >> 16) as u8);
    buf.push((v >> 24) as u8);
    assert(buf@ =~= old(buf)@ + u32_le(v));
}

/// Appends the two's complement bytes of `v` in little-endian order.
pub fn encode_i32_le(buf: &mut Vec<u8>, v: i32)
    ensures
        final(buf)@ == old(buf)@ + u32_le(v as u32),
{
    encode_u32_le(buf, v as u32);
}

/// Appends `v` in little-endian order.
pub fn encode_u64_le(buf: &mut Vec<u8>, v: u64)
    ensures
        final(buf)@ == old(buf)@ + u64_le(v),
{
    buf.push(v as u8);
    buf.push((v >> 8) as u8);
    buf.push((v >> 16) as u8);
    buf.push((v >> 24) as u8);
    buf.push((v >> 32) as u8);
    buf.push((v >> 40) as u8);
    buf.push((v >> 48) as u8);
    buf.push((v >> 56) as u8);
    assert(buf@ =~= old(buf)@ + u64_le(v));
}

/// Appends the two's complement bytes of `v` in little-endian order.
pub fn encode_i64_le(buf: &mut Vec<u8>, v: i64)
    ensures
        final(buf)@ == old(buf)@ + u64_le(v as u64),
{
    encode_u64_le(buf, v as u64);
}

/// Decodes a value written by `encode_u64`.
pub fn decode_u64(data: &mut &[u8]) -> (r: Result<u64>)
    ensures
        fixed_read(old(data)@, final(data)@, r, 8, be_u64_of(old(data)@)),
{
    match read_slice(data, 8) {
        Ok(b) => Ok(
            (b[0] as u64) << 56 | (b[1] as u64) << 48 | (b[2] as u64) << 40 | (b[3] as u64) << 32
                | (b[4] as u64) << 24 | (b[5] as u64) << 16 | (b[6] as u64) << 8 | (b[7] as u64),
        ),
        Err(e) => Err(e),
    }
}

/// Decodes a value written by `encode_u32`.
pub fn decode_u32(data: &mut &[u8]) -> (r: Result<u32>)
    ensures
        fixed_read(old(data)@, final(data)@, r, 4, be_u32_of(old(data)@)),
{
    match read_slice(data, 4) {
        Ok(b) => Ok((b[0] as u32) << 24 | (b[1] as u32) << 16 | (b[2] as u32) << 8 | (b[3] as u32)),
        Err(e) => Err(e),
    }
}

/// Decodes a value written by `encode_u16`.
pub fn decode_u16(data: &mut &[u8]) -> (r: Result<u16>)
    ensures
        fixed_read(old(data)@, final(data)@, r, 2, be_u16_of(old(data)@)),
{
    match read_slice(data, 2) {
        Ok(b) => Ok((b[0] as u16) << 8 | (b[1] as u16)),
        Err(e) => Err(e),
    }
}

/// Decodes a value written by `encode_u64_desc`.
pub fn decode_u64_desc(data: &mut &[u8]) -> (r: Result<u64>)
    ensures
        fixed_read(old(data)@, final(data)@, r, 8, !be_u64_of(old(data)@)),
{
    match decode_u64(data) {
        Ok(v) => Ok(!v),
        Err(e) => Err(e),
    }
}

/// Decodes a value written by `encode_i64`.
pub fn decode_i64(data: &mut &[u8]) -> (r: Result<i64>)
    ensures
        fixed_read(old(data)@, final(data)@, r, 8, unorder_i64(be_u64_of(old(data)@))),
{
    match decode_u64(data) {
        Ok(u) => Ok((u ^ SIGN_MARK) as i64),
        Err(e) => Err(e),
    }
}

/// Decodes a value written by `encode_i64_desc`.
pub fn decode_i64_desc(data: &mut &[u8]) -> (r: Result<i64>)
    ensures
        fixed_read(old(data)@, final(data)@, r, 8, unorder_i64(!be_u64_of(old(data)@))),
{
    match decode_u64_desc(data) {
        Ok(u) => Ok((u ^ SIGN_MARK) as i64),
        Err(e) => Err(e),
    }
}

/// Decodes a value written by `encode_u16_le`.
pub fn decode_u16_le(data: &mut &[u8]) -> (r: Result<u16>)
    ensures
        fixed_read(old(data)@, final(data)@, r, 2, le_u16_of(old(data)@)),
{
    match read_slice(data, 2) {
        Ok(b) => Ok((b[1] as u16) << 8 | (b[0] as u16)),
        Err(e) => Err(e),
    }
}

/// Decodes a value written by `encode_u32_le`.
pub fn decode_u32_le(data: &mut &[u8]) -> (r: Result<u32>)
    ensures
        fixed_read(old(data)@, final(data)@, r, 4, le_u32_of(old(data)@)),
{
    match read_slice(data, 4) {
        Ok(b) => Ok((b[3] as u32) << 24 | (b[2] as u32) << 16 | (b[1] as u32) << 8 | (b[0] as u32)),
        Err(e) => Err(e),
    }
}

/// Decodes a value written by `encode_i32_le`.
pub fn decode_i32_le(data: &mut &[u8]) -> (r: Result<i32>)
    ensures
        fixed_read(old(data)@, final(data)@, r, 4, le_u32_of(old(data)@) as i32),
{
    match decode_u32_le(data) {
        Ok(v) => Ok(v as i32),
        Err(e) => Err(e),
    }
}

/// Decodes a value written by `encode_u64_le`.
pub fn decode_u64_le(data: &mut &[u8]) -> (r: Result<u64>)
    ensures
        fixed_read(old(data)@, final(data)@, r, 8, le_u64_of(old(data)@)),
{
    match read_slice(data, 8) {
        Ok(b) => Ok(
            (b[7] as u64) << 56 | (b[6] as u64) << 48 | (b[5] as u64) << 40 | (b[4] as u64) << 32
                | (b[3] as u64) << 24 | (b[2] as u64) << 16 | (b[1] as u64) << 8 | (b[0] as u64),
        ),
        Err(e) => Err(e),
    }
}

/// Decodes a value written by `encode_i64_le`.
pub fn decode_i64_le(data: &mut &[u8]) -> (r: Result<i64>)
    ensures
        fixed_read(old(data)@, final(data)@, r, 8, le_u64_of(old(data)@) as i64),
{
    match decode_u64_le(data) {
        Ok(v) => Ok(v as i64),
        Err(e) => Err(e),
    }
}


/// Base-128 groups of `v`, least significant first; every byte but the last
/// has its high bit set.
pub open spec fn var_u64_bytes(v: u64) -> Seq<u8>
    decreases v,
{
    if v < 0x80 {
        seq![v as u8]
    } else {
        seq![(v % 0x80 + 0x80) as u8] + var_u64_bytes(v / 0x80)
    }
}

/// Zig-zag map of `i64` onto `u64`: shifted left one bit, complemented when
/// negative.
pub open spec fn zigzag(v: i64) -> u64 {
    if v < 0 {
        !((v as u64) << 1)
    } else {
        (v as u64) << 1
    }
}

/// Inverse of `zigzag`.
pub open spec fn unzigzag(u: u64) -> i64 {
    if u & 1 == 0 {
        (u >> 1) as i64
    } else {
        (!(u >> 1)) as i64
    }
}

/// The first index at or after `i` where a varint in `s` stops: a byte
/// below 0x80, the ninth position, or the end of `s`.
pub open spec fn var_stop(s: Seq<u8>, i: int) -> int
    decreases 9 - i,
{
    if i >= 9 || i >= s.len() || s[i] < 0x80 {
        i
    } else {
        var_stop(s, i + 1)
    }
}

/// The value of the base-128 groups `s[j..=t]`, least significant first.
pub open spec fn var_digits(s: Seq<u8>, j: int, t: int) -> u64
    decreases t - j,
{
    if j >= t {
        s[t] as u64
    } else {
        ((s[j] & 0x7f) as u64) | (var_digits(s, j + 1, t) << 7)
    }
}

/// Decoding a varint at the front of `s`: its value and the number of bytes
/// it takes, or why there is none.
pub open spec fn var_u64_decode(s: Seq<u8>) -> Result<(u64, int)> {
    let t = var_stop(s, 0);
    if t < 9 && t < s.len() {
        Ok((var_digits(s, 0, t), t + 1))
    } else if s.len() < 10 {
        Err(Error::UnexpectedEof)
    } else if s[9] <= 1 {
        Ok((var_digits(s, 0, 9), 10))
    } else {
        Err(Error::Overflow)
    }
}

/// What a varint read leaves: the value mapped by `f` and the input advanced
/// past the varint, or the error and the input untouched.
pub open spec fn var_read<T>(
    before: Seq<u8>,
    after: Seq<u8>,
    r: Result<T>,
    f: spec_fn(u64) -> T,
) -> bool {
    match var_u64_decode(before) {
        Ok((v, n)) => r == Ok::<T, Error>(f(v)) && after == before.subrange(n, before.len() as int),
        Err(e) => r == Err::<T, Error>(e) && after == before,
    }
}

proof fn lemma_shift_div_bounds(v: u64, k: u64)
    requires
        k <= 56,
        v <= (0xffff_ffff_ffff_ffffu64 >> k),
    ensures
        v / 0x80 <= (0xffff_ffff_ffff_ffffu64 >> (k + 7) as u64),
        k == 63 ==> v <= 1,
{
    assert(v <= (0xffff_ffff_ffff_ffffu64 >> k) ==> v / 0x80 <= (0xffff_ffff_ffff_ffffu64 >> (k
        + 7) as u64)) by (bit_vector)
        requires
            k <= 56,
    ;
}

/// The varint of `v`, found at position `i` of `s`, is read back as `v`.
proof fn lemma_var_decode_at(v: u64, s: Seq<u8>, i: int)
    requires
        0 <= i <= 9,
        v <= (0xffff_ffff_ffff_ffffu64 >> (7 * i) as u64),
        i + var_u64_bytes(v).len() <= s.len(),
        s.subrange(i, i + var_u64_bytes(v).len()) == var_u64_bytes(v),
    ensures
        i + var_u64_bytes(v).len() <= 10,
        var_stop(s, i) == i + var_u64_bytes(v).len() - 1,
        var_digits(s, i, i + var_u64_bytes(v).len() - 1) == v,
        i + var_u64_bytes(v).len() == 10 ==> s[9] <= 1,
    decreases v,
{
    let e = var_u64_bytes(v);
    assert(s[i] == e[0]);
    if v < 0x80 {
        if i == 9 {
            assert(v <= (0xffff_ffff_ffff_ffffu64 >> 63u64) ==> v <= 1) by (bit_vector);
        }
    } else {
        if i == 9 {
            assert(v <= (0xffff_ffff_ffff_ffffu64 >> 63u64) ==> v <= 1) by (bit_vector);
        }
        let w = v / 0x80;
        lemma_shift_div_bounds(v, (7 * i) as u64);
        assert((7 * i + 7) as u64 == ((7 * i) as u64 + 7) as u64);
        assert(s.subrange(i + 1, i + 1 + var_u64_bytes(w).len()) =~= var_u64_bytes(w)) by {
            assert(e =~= seq![(v % 0x80 + 0x80) as u8] + var_u64_bytes(w));
            assert forall|k: int| 0 <= k < var_u64_bytes(w).len() implies s[i + 1 + k]
                == var_u64_bytes(w)[k] by {
                assert(s.subrange(i, i + e.len())[1 + k] == e[1 + k]);
            }
        }
        lemma_var_decode_at(w, s, i + 1);
        let b = s[i];
        assert(b == (v % 0x80 + 0x80) as u8);
        assert(b == (v % 0x80 + 0x80) as u8 ==> ((b & 0x7f) as u64) | ((v / 0x80) << 7) == v)
            by (bit_vector);
    }
}

/// A varint followed by anything decodes to its value and its length.
pub proof fn lemma_var_u64_round_trip(v: u64, rest: Seq<u8>)
    ensures
        var_u64_decode(var_u64_bytes(v) + rest) == Ok::<(u64, int), Error>(
            (v, var_u64_bytes(v).len() as int),
        ),
        var_u64_bytes(v).len() <= 10,
{
    let s = var_u64_bytes(v) + rest;
    assert(s.subrange(0, var_u64_bytes(v).len() as int) =~= var_u64_bytes(v));
    assert(v <= (0xffff_ffff_ffff_ffffu64 >> 0u64)) by (bit_vector);
    lemma_var_decode_at(v, s, 0);
}

/// Zig-zag decoding undoes zig-zag encoding.
pub proof fn lemma_zigzag_round_trip(v: i64)
    ensures
        unzigzag(zigzag(v)) == v,
{
    assert(unzigzag(zigzag(v)) == v) by (bit_vector);
}


/// Appends the varint of `v`. Not memcomparable.
pub fn encode_var_u64(buf: &mut Vec<u8>, v: u64)
    ensures
        final(buf)@ == old(buf)@ + var_u64_bytes(v),
{
    let mut x = v;
    while x >= 0x80
        invariant
            buf@ + var_u64_bytes(x) == old(buf)@ + var_u64_bytes(v),
        decreases x,
    {
        let b = (x as u8) | 0x80;
        assert(b == (x % 0x80 + 0x80) as u8) by (bit_vector)
            requires
                b == (x as u8) | 0x80,
        ;
        let ghost before = buf@;
        buf.push(b);
        assert(buf@ + var_u64_bytes(x / 0x80) =~= before + var_u64_bytes(x));
        assert(x >> 7 == x / 0x80) by (bit_vector);
        x = x >> 7;
    }
    let ghost before = buf@;
    buf.push(x as u8);
    assert(buf@ =~= before + var_u64_bytes(x));
}

/// Appends the varint of the zig-zag image of `v`. Not memcomparable.
pub fn encode_var_i64(buf: &mut Vec<u8>, v: i64)
    ensures
        final(buf)@ == old(buf)@ + var_u64_bytes(zigzag(v)),
{
    let mut vx = (v as u64) << 1;
    if v < 0 {
        vx = !vx;
    }
    encode_var_u64(buf, vx);
}

/// The value of the groups `s[0..=t]` of a varint.
fn var_value(s: &[u8], t: usize) -> (r: u64)
    requires
        t < s@.len(),
    ensures
        r == var_digits(s@, 0, t as int),
{
    let mut j = t;
    let mut res: u64 = s[t] as u64;
    while j > 0
        invariant
            j <= t < s@.len(),
            res == var_digits(s@, j as int, t as int),
        decreases j,
    {
        j = j - 1;
        res = ((s[j] & 0x7f) as u64) | (res << 7);
    }
    res
}

/// Decodes a value written by `encode_var_u64`.
pub fn decode_var_u64(data: &mut &[u8]) -> (r: Result<u64>)
    ensures
        var_read(old(data)@, final(data)@, r, |v: u64| v),
{
    let s = *data;
    let len = s.len();
    let mut t: usize = 0;
    while t < 9 && t < len && s[t] >= 0x80
        invariant
            t <= 9,
            t <= len == s@.len(),
            var_stop(s@, 0) == var_stop(s@, t as int),
        decreases 9 - t,
    {
        t = t + 1;
    }
    if t < 9 && t < len {
        let v = var_value(s, t);
        *data = vstd::slice::slice_subrange(s, t + 1, len);
        Ok(v)
    } else if len < 10 {
        Err(Error::unexpected_eof())
    } else if s[9] <= 1 {
        let v = var_value(s, 9);
        *data = vstd::slice::slice_subrange(s, 10, len);
        Ok(v)
    } else {
        Err(Error::Overflow)
    }
}

/// Decodes a value written by `encode_var_i64`.
pub fn decode_var_i64(data: &mut &[u8]) -> (r: Result<i64>)
    ensures
        var_read(old(data)@, final(data)@, r, |v: u64| unzigzag(v)),
{
    match decode_var_u64(data) {
        Ok(v) => {
            let vx = v >> 1;
            if v & 1 == 0 {
                Ok(vx as i64)
            } else {
                Ok((!vx) as i64)
            }
        },
        Err(e) => Err(e),
    }
}

/// Maps the bits of an `f64` so that unsigned order of the result matches
/// the order of the finite floats: the sign bit is set on non-negative
/// patterns, negative patterns are complemented.
pub fn order_encode_f64_bits(u: u64) -> (r: u64)
    ensures
        r == order_encode_f64_bits_spec(u),
{
    if u & SIGN_MARK == 0 {
        u | SIGN_MARK
    } else {
        !u
    }
}

/// Inverse of `order_encode_f64_bits`.
pub fn order_decode_f64_bits(u: u64) -> (r: u64)
    ensures
        r == (if u & SIGN_MARK != 0 {
            u & !SIGN_MARK
        } else {
            !u
        }),
        forall|b: u64| #[trigger] order_encode_f64_bits_spec(b) == u ==> r == b,
{
    proof {
        assert(forall|b: u64| #[trigger] order_encode_f64_bits_spec(b) == u ==> (if u
            & 0x8000000000000000u64 != 0 { u & !0x8000000000000000u64 } else { !u }) == b)
            by (bit_vector);
    }
    if u & SIGN_MARK != 0 {
        u & !SIGN_MARK
    } else {
        !u
    }
}

/// The map computed by `order_encode_f64_bits`.
pub open spec fn order_encode_f64_bits_spec(u: u64) -> u64 {
    if u & 0x8000000000000000u64 == 0 {
        u | 0x8000000000000000u64
    } else {
        !u
    }
}


proof fn lemma_var_stop_bounds(s: Seq<u8>, i: int)
    requires
        0 <= i,
    ensures
        i <= var_stop(s, i),
    decreases 9 - i,
{
    if !(i >= 9 || i >= s.len() || s[i] < 0x80) {
        lemma_var_stop_bounds(s, i + 1);
    }
}

/// A decoded varint takes between one and ten bytes of its input.
pub proof fn lemma_var_u64_decode_len(s: Seq<u8>)
    ensures
        var_u64_decode(s) matches Ok((v, n)) ==> 1 <= n <= s.len() && n <= 10,
{
    lemma_var_stop_bounds(s, 0);
}


proof fn lemma_u64_byte_order(a: u64, b: u64)
    by (bit_vector)
    ensures
        (a >> 56) as u8 != (b >> 56) as u8 ==> (a < b <==> ((a >> 56) as u8) < ((b >> 56) as u8)),
        (a >> 56) as u8 == (b >> 56) as u8 && (a >> 48) as u8 != (b >> 48) as u8 ==> (a < b <==> ((a >> 48) as u8) < ((b >> 48) as u8)),
        (a >> 56) as u8 == (b >> 56) as u8 && (a >> 48) as u8 == (b >> 48) as u8 && (a >> 40) as u8
            != (b >> 40) as u8 ==> (a < b <==> ((a >> 40) as u8) < ((b >> 40) as u8)),
        (a >> 56) as u8 == (b >> 56) as u8 && (a >> 48) as u8 == (b >> 48) as u8 && (a >> 40) as u8
            == (b >> 40) as u8 && (a >> 32) as u8 != (b >> 32) as u8 ==> (a < b <==> ((a >> 32) as u8) < ((b >> 32) as u8)),
        (a >> 56) as u8 == (b >> 56) as u8 && (a >> 48) as u8 == (b >> 48) as u8 && (a >> 40) as u8
            == (b >> 40) as u8 && (a >> 32) as u8 == (b >> 32) as u8 && (a >> 24) as u8 != (b >> 24)
            as u8 ==> (a < b <==> ((a >> 24) as u8) < ((b >> 24) as u8)),
        (a >> 56) as u8 == (b >> 56) as u8 && (a >> 48) as u8 == (b >> 48) as u8 && (a >> 40) as u8
            == (b >> 40) as u8 && (a >> 32) as u8 == (b >> 32) as u8 && (a >> 24) as u8 == (b >> 24)
            as u8 && (a >> 16) as u8 != (b >> 16) as u8 ==> (a < b <==> ((a >> 16) as u8) < ((b >> 16) as u8)),
        (a >> 56) as u8 == (b >> 56) as u8 && (a >> 48) as u8 == (b >> 48) as u8 && (a >> 40) as u8
            == (b >> 40) as u8 && (a >> 32) as u8 == (b >> 32) as u8 && (a >> 24) as u8 == (b >> 24)
            as u8 && (a >> 16) as u8 == (b >> 16) as u8 && (a >> 8) as u8 != (b >> 8) as u8 ==> (a
            < b <==> ((a >> 8) as u8) < ((b >> 8) as u8)),
        (a >> 56) as u8 == (b >> 56) as u8 && (a >> 48) as u8 == (b >> 48) as u8 && (a >> 40) as u8
            == (b >> 40) as u8 && (a >> 32) as u8 == (b >> 32) as u8 && (a >> 24) as u8 == (b >> 24)
            as u8 && (a >> 16) as u8 == (b >> 16) as u8 && (a >> 8) as u8 == (b >> 8) as u8 && a as u8
            != b as u8 ==> (a < b <==> (a as u8) < (b as u8)),
{
}

/// Big-endian bytes of words sort as the words do.
pub proof fn lemma_u64_be_order(a: u64, b: u64)
    ensures
        a < b <==> lex_lt(u64_be(a), u64_be(b)),
{
    let (x, y) = (u64_be(a), u64_be(b));
    if a == b {
        lemma_lex_cmp_equal(x, y);
    } else {
        lemma_u64_be_injective(a, b);
        assert(x.subrange(0, 8) =~= x);
        assert(y.subrange(0, 8) =~= y);
        let k = first_diff_within(x, y, 8);
        lemma_lex_cmp_first_diff(x, y, k);
        assert forall|i: int| 0 <= i < k implies x[i] == y[i] by {
            assert(x.subrange(0, k)[i] == y.subrange(0, k)[i]);
        }
        lemma_u64_byte_order(a, b);
        if k == 0 {
        } else if k == 1 {
            assert(x[0] == y[0]);
        } else if k == 2 {
            assert(x[0] == y[0] && x[1] == y[1]);
        } else if k == 3 {
            assert(x[0] == y[0] && x[1] == y[1] && x[2] == y[2]);
        } else if k == 4 {
            assert(x[0] == y[0] && x[1] == y[1] && x[2] == y[2] && x[3] == y[3]);
        } else if k == 5 {
            assert(x[0] == y[0] && x[1] == y[1] && x[2] == y[2] && x[3] == y[3] && x[4] == y[4]);
        } else if k == 6 {
            assert(x[0] == y[0] && x[1] == y[1] && x[2] == y[2] && x[3] == y[3] && x[4] == y[4]
                && x[5] == y[5]);
        } else {
            assert(x[0] == y[0] && x[1] == y[1] && x[2] == y[2] && x[3] == y[3] && x[4] == y[4]
                && x[5] == y[5] && x[6] == y[6]);
        }
    }
}

/// The ascending fixed-width encoding of `i64` sorts as the signed values do.
pub proof fn lemma_i64_asc_order(x: i64, y: i64)
    ensures
        x < y <==> lex_lt(u64_be(order_i64(x)), u64_be(order_i64(y))),
{
    lemma_order_i64_monotone(x, y);
    lemma_u64_be_order(order_i64(x), order_i64(y));
}

/// The descending fixed-width encoding of `u64` sorts in reverse.
pub proof fn lemma_u64_desc_order(a: u64, b: u64)
    ensures
        a < b <==> lex_lt(u64_be(!b), u64_be(!a)),
{
    assert(a < b <==> !b < !a) by (bit_vector);
    lemma_u64_be_order(!b, !a);
}


/// The varint of the zig-zag image of `v`, followed by anything, decodes
/// back to `v`.
pub proof fn lemma_var_i64_round_trip(v: i64, rest: Seq<u8>)
    ensures
        var_u64_decode(var_u64_bytes(zigzag(v)) + rest) == Ok::<(u64, int), Error>(
            (zigzag(v), var_u64_bytes(zigzag(v)).len() as int),
        ),
        unzigzag(zigzag(v)) == v,
{
    lemma_var_u64_round_trip(zigzag(v), rest);
    lemma_zigzag_round_trip(v);
}

} // verus!
