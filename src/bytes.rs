use vstd::prelude::*;

pub use crate::error::{Error, Result};
pub use crate::number::read_slice;
use crate::number;
use crate::number::{var_u64_bytes, var_u64_decode};
use crate::order::{
    first_diff, first_diff_within, first_mismatch, lemma_first_diff_complement, lemma_lex_cmp_common_prefix,
    lemma_lex_cmp_equal, lemma_lex_cmp_first_diff, lemma_lex_cmp_strict_prefix, lex_lt,
};

verus! {

/// Bytes of payload in one group.
pub const ENC_GROUP_SIZE: usize = 8;

/// Marker of a full group in ascending order.
pub const ENC_MARKER: u8 = 0xff;

/// `b`, complemented when `desc` holds.
pub open spec fn adjust_byte(b: u8, desc: bool) -> u8 {
    if desc {
        !b
    } else {
        b
    }
}

/// Every byte of `s`, complemented when `desc` holds.
pub open spec fn adjust(s: Seq<u8>, desc: bool) -> Seq<u8> {
    s.map_values(|b: u8| adjust_byte(b, desc))
}

/// `n` zero bytes.
pub open spec fn zeros(n: int) -> Seq<u8> {
    Seq::new(n as nat, |i: int| 0u8)
}

/// The ascending memcomparable form of `key`: full groups of eight bytes
/// marked 0xFF, then one group holding the rest padded with zeros and marked
/// `0xFF - pad`.
pub open spec fn encode_asc(key: Seq<u8>) -> Seq<u8>
    decreases key.len(),
{
    if key.len() >= 8 {
        key.subrange(0, 8) + seq![0xffu8] + encode_asc(key.subrange(8, key.len() as int))
    } else {
        key + zeros(8 - key.len()) + seq![(0xff - (8 - key.len())) as u8]
    }
}

/// The memcomparable form of `key`; under `desc` every byte of the
/// ascending form is complemented.
pub open spec fn memcomparable(key: Seq<u8>, desc: bool) -> Seq<u8> {
    adjust(encode_asc(key), desc)
}

/// The size of the memcomparable form of `n` bytes.
pub open spec fn encoded_size(n: int) -> int {
    (n / 8 + 1) * 9
}

proof fn lemma_adjust_add(a: Seq<u8>, b: Seq<u8>, desc: bool)
    ensures
        adjust(a + b, desc) == adjust(a, desc) + adjust(b, desc),
{
    assert(adjust(a + b, desc) =~= adjust(a, desc) + adjust(b, desc));
}

/// The memcomparable form of a key of eight bytes or more is its first group
/// followed by the form of the rest.
proof fn lemma_memcomparable_unfold(key: Seq<u8>, desc: bool)
    requires
        key.len() >= 8,
    ensures
        memcomparable(key, desc) == adjust(key.subrange(0, 8), desc) + seq![adjust_byte(0xff, desc)]
            + memcomparable(key.subrange(8, key.len() as int), desc),
{
    let rest = key.subrange(8, key.len() as int);
    lemma_adjust_add(key.subrange(0, 8) + seq![0xffu8], encode_asc(rest), desc);
    lemma_adjust_add(key.subrange(0, 8), seq![0xffu8], desc);
    assert(adjust(seq![0xffu8], desc) =~= seq![adjust_byte(0xff, desc)]);
}

/// The memcomparable form of `n` bytes takes `encoded_size(n)` bytes.
pub proof fn lemma_memcomparable_len(key: Seq<u8>, desc: bool)
    ensures
        memcomparable(key, desc).len() == encoded_size(key.len() as int),
    decreases key.len(),
{
    if key.len() >= 8 {
        lemma_memcomparable_unfold(key, desc);
        lemma_memcomparable_len(key.subrange(8, key.len() as int), desc);
    }
}

/// The largest size that the memcomparable form of `n` bytes can take.
pub fn max_encoded_bytes_size(n: usize) -> (r: usize)
    requires
        encoded_size(n as int) <= usize::MAX,
    ensures
        r == encoded_size(n as int),
{
    (n / ENC_GROUP_SIZE + 1) * (ENC_GROUP_SIZE + 1)
}

/// Appends `bs[from..to]`, complemented when `desc` holds.
fn push_adjusted(buf: &mut Vec<u8>, bs: &[u8], from: usize, to: usize, desc: bool)
    requires
        from <= to <= bs@.len(),
    ensures
        final(buf)@ == old(buf)@ + adjust(bs@.subrange(from as int, to as int), desc),
{
    let mut i = from;
    while i < to
        invariant
            from <= i <= to <= bs@.len(),
            buf@ == old(buf)@ + adjust(bs@.subrange(from as int, i as int), desc),
        decreases to - i,
    {
        let b = if desc {
            !bs[i]
        } else {
            bs[i]
        };
        buf.push(b);
        i = i + 1;
        assert(buf@ =~= old(buf)@ + adjust(bs@.subrange(from as int, i as int), desc));
    }
}

/// Appends the memcomparable form of `key` to `buf`.
pub fn write_bytes(buf: &mut Vec<u8>, key: &[u8], desc: bool)
    ensures
        final(buf)@ == old(buf)@ + memcomparable(key@, desc),
{
    let len = key.len();
    let mut index: usize = 0;
    assert(key@.subrange(0, len as int) =~= key@);
    while len - index >= ENC_GROUP_SIZE
        invariant
            index <= len == key@.len(),
            buf@ + memcomparable(key@.subrange(index as int, len as int), desc) == old(buf)@
                + memcomparable(key@, desc),
        decreases len - index,
    {
        let ghost rest = key@.subrange(index as int, len as int);
        proof {
            lemma_memcomparable_unfold(rest, desc);
            assert(rest.subrange(0, 8) =~= key@.subrange(index as int, index + 8));
            assert(rest.subrange(8, rest.len() as int) =~= key@.subrange(index + 8, len as int));
        }
        let ghost before = buf@;
        push_adjusted(buf, key, index, index + ENC_GROUP_SIZE, desc);
        buf.push(if desc {
            !ENC_MARKER
        } else {
            ENC_MARKER
        });
        assert(buf@ =~= before + adjust(key@.subrange(index as int, index + 8), desc) + seq![
            adjust_byte(0xff, desc)]);
        index = index + ENC_GROUP_SIZE;
    }
    let ghost rest = key@.subrange(index as int, len as int);
    let ghost before = buf@;
    let remain = len - index;
    let pad = ENC_GROUP_SIZE - remain;
    push_adjusted(buf, key, index, len, desc);
    let mut j: usize = 0;
    while j < pad
        invariant
            j <= pad,
            buf@ == before + adjust(rest, desc) + adjust(zeros(j as int), desc),
        decreases pad - j,
    {
        let ghost prev = buf@;
        buf.push(if desc {
            0xffu8
        } else {
            0u8
        });
        j = j + 1;
        proof {
            assert(!0u8 == 0xffu8) by (bit_vector);
            assert(zeros(j as int) =~= zeros(j - 1) + seq![0u8]);
            lemma_adjust_add(zeros(j - 1), seq![0u8], desc);
            assert(adjust(seq![0u8], desc) =~= seq![adjust_byte(0, desc)]);
            assert(buf@ =~= prev + seq![adjust_byte(0, desc)]);
        }
    }
    let marker = ENC_MARKER - pad as u8;
    buf.push(if desc {
        !marker
    } else {
        marker
    });
    proof {
        lemma_adjust_add(rest + zeros(pad as int), seq![marker], desc);
        lemma_adjust_add(rest, zeros(pad as int), desc);
        assert(adjust(seq![marker], desc) =~= seq![adjust_byte(marker, desc)]);
        assert(buf@ =~= before + memcomparable(rest, desc));
    }
}

/// The ascending memcomparable form of `bs`.
pub fn encode_bytes(bs: &[u8]) -> (r: Vec<u8>)
    ensures
        r@ == memcomparable(bs@, false),
{
    encode_order_bytes(bs, false)
}

/// The descending memcomparable form of `bs`.
pub fn encode_bytes_desc(bs: &[u8]) -> (r: Vec<u8>)
    ensures
        r@ == memcomparable(bs@, true),
{
    encode_order_bytes(bs, true)
}

/// The memcomparable form of `bs`, in descending order when `desc` holds.
pub fn encode_order_bytes(bs: &[u8], desc: bool) -> (r: Vec<u8>)
    ensures
        r@ == memcomparable(bs@, desc),
{
    let mut encoded = Vec::new();
    write_bytes(&mut encoded, bs, desc);
    assert(encoded@ =~= memcomparable(bs@, desc));
    encoded
}


/// The byte that fills the padding of the last group.
pub open spec fn pad_byte(desc: bool) -> u8 {
    if desc {
        0xff
    } else {
        0
    }
}

/// The padding length that a marker stands for.
pub open spec fn pad_of(marker: u8, desc: bool) -> int {
    if desc {
        marker as int
    } else {
        0xff - marker
    }
}

/// Whether `s[from..to]` holds the padding byte only.
pub open spec fn padding_ok(s: Seq<u8>, from: int, to: int, desc: bool) -> bool {
    forall|j: int| from <= j < to ==> s[j] == pad_byte(desc)
}

/// Reads the groups at the front of `s` up to the first padded one: the
/// payload bytes as stored (still complemented under `desc`) and the number
/// of bytes taken, or why `s` holds no valid run of groups.
pub open spec fn decode_groups(s: Seq<u8>, desc: bool) -> Result<(Seq<u8>, int)>
    decreases s.len(),
{
    if s.len() < 9 {
        Err(Error::UnexpectedEof)
    } else {
        let pad = pad_of(s[8], desc);
        if pad == 0 {
            match decode_groups(s.subrange(9, s.len() as int), desc) {
                Ok((k, n)) => Ok((s.subrange(0, 8) + k, n + 9)),
                Err(e) => Err(e),
            }
        } else if pad > 8 {
            Err(Error::KeyPadding)
        } else if !padding_ok(s, 8 - pad, 8, desc) {
            Err(Error::KeyPadding)
        } else {
            Ok((s.subrange(0, 8 - pad), 9))
        }
    }
}

/// Decoding the memcomparable run at the front of `s`: the unencoded bytes and
/// the number of bytes the run takes, or why there is none.
pub open spec fn decode_memcomparable(s: Seq<u8>, desc: bool) -> Result<(Seq<u8>, int)> {
    match decode_groups(s, desc) {
        Ok((k, n)) => Ok((adjust(k, desc), n)),
        Err(e) => Err(e),
    }
}

/// `r` with `pre` put before its bytes and `off` added to its length.
pub open spec fn shift_result(r: Result<(Seq<u8>, int)>, pre: Seq<u8>, off: int) -> Result<
    (Seq<u8>, int),
> {
    match r {
        Ok((k, n)) => Ok((pre + k, n + off)),
        Err(e) => Err(e),
    }
}

proof fn lemma_shift_result_twice(r: Result<(Seq<u8>, int)>, a: Seq<u8>, b: Seq<u8>, m: int, n: int)
    ensures
        shift_result(shift_result(r, b, n), a, m) == shift_result(r, a + b, m + n),
{
    match r {
        Ok((k, x)) => {
            assert(a + (b + k) =~= (a + b) + k);
        },
        Err(_) => {},
    }
}

proof fn lemma_decode_groups_step(s: Seq<u8>, offset: int, desc: bool)
    requires
        0 <= offset,
        offset + 9 <= s.len(),
        s[offset + 8] == (if desc {
            0u8
        } else {
            0xffu8
        }),
    ensures
        decode_groups(s.subrange(offset, s.len() as int), desc) == shift_result(
            decode_groups(s.subrange(offset + 9, s.len() as int), desc),
            s.subrange(offset, offset + 9 - 1),
            9,
        ),
{
    let t = s.subrange(offset, s.len() as int);
    assert(t.subrange(9, t.len() as int) =~= s.subrange(offset + 9, s.len() as int));
    assert(t.subrange(0, 8) =~= s.subrange(offset, offset + 8));
    assert(t[8] == s[offset + 8]);
}

/// Appends `s[from..to]` to `key`.
fn push_range(key: &mut Vec<u8>, s: &[u8], from: usize, to: usize)
    requires
        from <= to <= s@.len(),
    ensures
        final(key)@ == old(key)@ + s@.subrange(from as int, to as int),
{
    let mut i = from;
    while i < to
        invariant
            from <= i <= to <= s@.len(),
            key@ == old(key)@ + s@.subrange(from as int, i as int),
        decreases to - i,
    {
        key.push(s[i]);
        i = i + 1;
        assert(key@ =~= old(key)@ + s@.subrange(from as int, i as int));
    }
}

/// Whether `s[from..to]` holds the padding byte only.
fn padding_matches(s: &[u8], from: usize, to: usize, desc: bool) -> (r: bool)
    requires
        from <= to <= s@.len(),
    ensures
        r == padding_ok(s@, from as int, to as int, desc),
{
    let expected: u8 = if desc {
        0xff
    } else {
        0
    };
    let mut j = from;
    while j < to
        invariant
            from <= j <= to <= s@.len(),
            expected == pad_byte(desc),
            padding_ok(s@, from as int, j as int, desc),
        decreases to - j,
    {
        if s[j] != expected {
            return false;
        }
        j = j + 1;
    }
    true
}

/// Complements every byte of `v` in place.
fn complement_in_place(v: &mut Vec<u8>)
    ensures
        final(v)@ == adjust(old(v)@, true),
{
    let mut k: usize = 0;
    while k < v.len()
        invariant
            k <= v@.len() == old(v)@.len(),
            forall|x: int| 0 <= x < k ==> v@[x] == !old(v)@[x],
            forall|x: int| k <= x < v@.len() ==> v@[x] == old(v)@[x],
        decreases old(v)@.len() - k,
    {
        let b = v[k];
        v[k] = !b;
        k = k + 1;
    }
    assert(v@ =~= adjust(old(v)@, true));
}

/// Decodes the memcomparable run at the front of `data` and advances `data`
/// past it.
pub fn decode_bytes(data: &mut &[u8], desc: bool) -> (r: Result<Vec<u8>>)
    ensures
        match decode_memcomparable(old(data)@, desc) {
            Ok((k, n)) => r matches Ok(v) && v@ == k && final(data)@ == old(data)@.subrange(
                n,
                old(data)@.len() as int,
            ),
            Err(e) => r == Err::<Vec<u8>, Error>(e) && final(data)@ == old(data)@,
        },
{
    let s = *data;
    let len = s.len();
    let mut key: Vec<u8> = Vec::with_capacity(len / (ENC_GROUP_SIZE + 1) * ENC_GROUP_SIZE);
    let mut offset: usize = 0;
    assert(s@.subrange(0, len as int) =~= s@);
    assert(key@ + Seq::<u8>::empty() =~= key@);
    loop
        invariant
            offset <= len == s@.len(),
            *data == s,
            *old(data) == s,
            decode_groups(s@, desc) == shift_result(
                decode_groups(s@.subrange(offset as int, len as int), desc),
                key@,
                offset as int,
            ),
        decreases len - offset,
    {
        let ghost t = s@.subrange(offset as int, len as int);
        if len - offset < ENC_GROUP_SIZE + 1 {
            assert(decode_groups(t, desc) == Err::<(Seq<u8>, int), Error>(Error::UnexpectedEof));
            return Err(Error::unexpected_eof());
        }
        let marker = s[offset + ENC_GROUP_SIZE];
        assert(t[8] == marker);
        let pad: usize = if desc {
            marker as usize
        } else {
            (ENC_MARKER - marker) as usize
        };
        assert(pad_of(t[8], desc) == pad as int);
        if pad == 0 {
            proof {
                lemma_decode_groups_step(s@, offset as int, desc);
                lemma_shift_result_twice(
                    decode_groups(s@.subrange(offset + 9, len as int), desc),
                    key@,
                    s@.subrange(offset as int, offset + 8),
                    offset as int,
                    9,
                );
            }
            push_range(&mut key, s, offset, offset + ENC_GROUP_SIZE);
            offset = offset + ENC_GROUP_SIZE + 1;
            continue ;
        }
        if pad > ENC_GROUP_SIZE {
            return Err(Error::KeyPadding);
        }
        let keep = ENC_GROUP_SIZE - pad;
        let padded = padding_matches(s, offset + keep, offset + ENC_GROUP_SIZE, desc);
        assert(padding_ok(s@, offset + keep, offset + 8, desc) == padding_ok(
            t,
            keep as int,
            8,
            desc,
        )) by {
            assert forall|j: int| keep <= j < 8 implies t[j] == s@[offset + j] by {}
            assert forall|j: int| offset + keep <= j < offset + 8 implies s@[j] == t[j - offset] by {}
        }
        if !padded {
            return Err(Error::KeyPadding);
        }
        push_range(&mut key, s, offset, offset + keep);
        assert(t.subrange(0, keep as int) =~= s@.subrange(offset as int, offset + keep));
        let ghost raw = key@;
        assert(decode_groups(s@, desc) == Ok::<(Seq<u8>, int), Error>((raw, offset + 9)));
        if desc {
            complement_in_place(&mut key);
        } else {
            assert(key@ =~= adjust(raw, desc));
        }
        *data = vstd::slice::slice_subrange(s, offset + ENC_GROUP_SIZE + 1, len);
        return Ok(key);
    }
}


proof fn lemma_adjust_twice(s: Seq<u8>, desc: bool)
    ensures
        adjust(adjust(s, desc), desc) == s,
{
    assert forall|i: int| 0 <= i < s.len() implies adjust(adjust(s, desc), desc)[i] == s[i] by {
        let b = s[i];
        assert(!(!b) == b) by (bit_vector);
    }
    assert(adjust(adjust(s, desc), desc) =~= s);
}

/// The raw groups of the form of `key`, followed by anything, are read back
/// as the stored payload of `key`.
proof fn lemma_decode_groups_encoded(key: Seq<u8>, rest: Seq<u8>, desc: bool)
    ensures
        decode_groups(memcomparable(key, desc) + rest, desc) == Ok::<(Seq<u8>, int), Error>(
            (adjust(key, desc), memcomparable(key, desc).len() as int),
        ),
    decreases key.len(),
{
    let s = memcomparable(key, desc) + rest;
    assert(!0xffu8 == 0u8) by (bit_vector);
    if key.len() >= 8 {
        let tail = key.subrange(8, key.len() as int);
        lemma_memcomparable_unfold(key, desc);
        lemma_decode_groups_encoded(tail, rest, desc);
        assert(s[8] == adjust_byte(0xff, desc));
        assert(s.subrange(9, s.len() as int) =~= memcomparable(tail, desc) + rest);
        assert(s.subrange(0, 8) =~= adjust(key.subrange(0, 8), desc));
        lemma_adjust_add(key.subrange(0, 8), tail, desc);
        assert(key.subrange(0, 8) + tail =~= key);
    } else {
        let p = 8 - key.len();
        let m = (0xff - p) as u8;
        let group = key + zeros(p) + seq![m];
        assert(encode_asc(key) == group);
        lemma_adjust_add(key + zeros(p), seq![m], desc);
        lemma_adjust_add(key, zeros(p), desc);
        assert(s[8] == adjust_byte(m, desc));
        assert(1 <= p <= 8);
        assert(pad_of(adjust_byte(m, desc), desc) == p) by {
            let pu = p as u8;
            assert(1 <= pu <= 8 ==> !((0xff - pu) as u8) == pu) by (bit_vector);
        }
        assert(!0u8 == 0xffu8) by (bit_vector);
        assert forall|j: int| 8 - p <= j < 8 implies s[j] == pad_byte(desc) by {
            assert(s[j] == adjust(zeros(p), desc)[j - key.len()]);
            assert(zeros(p)[j - key.len()] == 0u8);
        }
        assert(s.subrange(0, 8 - p) =~= adjust(key, desc));
        lemma_memcomparable_len(key, desc);
    }
}

/// Decoding the memcomparable form of `key`, followed by anything, gives
/// back `key` and consumes exactly the form.
pub proof fn lemma_memcomparable_round_trip(key: Seq<u8>, rest: Seq<u8>, desc: bool)
    ensures
        decode_memcomparable(memcomparable(key, desc) + rest, desc) == Ok::<
            (Seq<u8>, int),
            Error,
        >((key, memcomparable(key, desc).len() as int)),
{
    lemma_decode_groups_encoded(key, rest, desc);
    lemma_adjust_twice(key, desc);
}

/// Where the padding of the last group of the form of a key of length `n`
/// lies: from `first` (inclusive) to `end` (exclusive).
pub open spec fn padding_range(n: int) -> (int, int) {
    (9 * (n / 8) + n % 8, 9 * (n / 8) + 8)
}

/// Changing any padding byte of the memcomparable form of `key` to another
/// value makes decoding fail with `KeyPadding`.
pub proof fn lemma_padding_corruption_detected(key: Seq<u8>, desc: bool, j: int, x: u8)
    requires
        padding_range(key.len() as int).0 <= j < padding_range(key.len() as int).1,
        x != pad_byte(desc),
    ensures
        decode_memcomparable(memcomparable(key, desc).update(j, x), desc) == Err::<
            (Seq<u8>, int),
            Error,
        >(Error::KeyPadding),
    decreases key.len(),
{
    let e = memcomparable(key, desc);
    let s = e.update(j, x);
    lemma_memcomparable_len(key, desc);
    assert(!0xffu8 == 0u8) by (bit_vector);
    if key.len() >= 8 {
        let tail = key.subrange(8, key.len() as int);
        lemma_memcomparable_unfold(key, desc);
        assert(padding_range(tail.len() as int).0 == padding_range(key.len() as int).0 - 9);
        assert(padding_range(tail.len() as int).1 == padding_range(key.len() as int).1 - 9);
        lemma_padding_corruption_detected(tail, desc, j - 9, x);
        lemma_memcomparable_len(tail, desc);
        assert(s[8] == adjust_byte(0xff, desc));
        assert(s.subrange(9, s.len() as int) =~= memcomparable(tail, desc).update(j - 9, x));
    } else {
        let p = 8 - key.len();
        let m = (0xff - p) as u8;
        assert(encode_asc(key) == key + zeros(p) + seq![m]);
        lemma_adjust_add(key + zeros(p), seq![m], desc);
        lemma_adjust_add(key, zeros(p), desc);
        assert(s[8] == adjust_byte(m, desc));
        assert(pad_of(adjust_byte(m, desc), desc) == p) by {
            let pu = p as u8;
            assert(1 <= pu <= 8 ==> !((0xff - pu) as u8) == pu) by (bit_vector);
        }
        assert(s[j] == x);
        assert(!padding_ok(s, 8 - p, 8, desc));
    }
}


/// Moves `data[read..read+8]` to `data[write..write+8]`, front to back, so
/// that overlapping ranges are copied as a memmove would.
fn move_group(data: &mut Vec<u8>, read: usize, write: usize)
    requires
        write <= read,
        read + 8 <= old(data)@.len(),
    ensures
        final(data)@.len() == old(data)@.len(),
        final(data)@.subrange(0, write as int) == old(data)@.subrange(0, write as int),
        final(data)@.subrange(write as int, write + 8) == old(data)@.subrange(
            read as int,
            read + 8,
        ),
        final(data)@.subrange(read + 8, old(data)@.len() as int) == old(data)@.subrange(
            read + 8,
            old(data)@.len() as int,
        ),
{
    let ghost start = data@;
    let n = data.len();
    let mut i: usize = 0;
    while i < 8
        invariant
            i <= 8,
            n == start.len(),
            write <= read,
            read + 8 <= start.len(),
            data@.len() == start.len(),
            forall|k: int| 0 <= k < write ==> data@[k] == start[k],
            forall|k: int| write <= k < write + i ==> #[trigger] data@[k] == start[k - write + read],
            forall|k: int| read + i <= k < start.len() ==> data@[k] == start[k],
        decreases 8 - i,
    {
        let b = data[read + i];
        data[write + i] = b;
        i = i + 1;
    }
    assert(data@.subrange(0, write as int) =~= start.subrange(0, write as int));
    assert(data@.subrange(write as int, write + 8) =~= start.subrange(read as int, read + 8)) by {
        assert forall|k: int| 0 <= k < 8 implies #[trigger] data@.subrange(
            write as int,
            write + 8,
        )[k] == start.subrange(read as int, read + 8)[k] by {
            assert(data@[write + k] == start[(write + k) - write + read]);
        }
    }
    assert(data@.subrange(read + 8, start.len() as int) =~= start.subrange(
        read + 8,
        start.len() as int,
    ));
}

/// Decodes the memcomparable run at the front of `data` into `data` itself,
/// dropping whatever follows the run. On failure the contents are left
/// partly compacted, with the length unchanged.
pub fn decode_bytes_in_place(data: &mut Vec<u8>, desc: bool) -> (r: Result<()>)
    ensures
        match decode_memcomparable(old(data)@, desc) {
            Ok((k, n)) => r == Ok::<(), Error>(()) && final(data)@ == k,
            Err(e) => r == Err::<(), Error>(e) && final(data)@.len() == old(data)@.len(),
        },
{
    let ghost s = data@;
    let len = data.len();
    let mut write: usize = 0;
    let mut read: usize = 0;
    assert(s.subrange(0, len as int) =~= s);
    loop
        invariant
            write <= read <= len == s.len(),
            data@.len() == len,
            s == old(data)@,
            data@.subrange(read as int, len as int) == s.subrange(read as int, len as int),
            decode_groups(s, desc) == shift_result(
                decode_groups(s.subrange(read as int, len as int), desc),
                data@.subrange(0, write as int),
                read as int,
            ),
        decreases len - read,
    {
        let ghost t = s.subrange(read as int, len as int);
        let ghost before = data@;
        if len - read < ENC_GROUP_SIZE + 1 {
            assert(decode_groups(t, desc) == Err::<(Seq<u8>, int), Error>(Error::UnexpectedEof));
            return Err(Error::unexpected_eof());
        }
        move_group(data, read, write);
        assert(data@[read + 8] == before[read + 8]) by {
            assert(data@.subrange(read + 8, len as int)[0] == before.subrange(read + 8, len as int)[0]);
        }
        assert(before[read + 8] == t[8]) by {
            assert(before.subrange(read as int, len as int)[8] == t[8]);
        }
        assert(data@.subrange(write as int, write + 8) == t.subrange(0, 8)) by {
            assert(before.subrange(read as int, read + 8) =~= t.subrange(0, 8)) by {
                assert forall|k: int| 0 <= k < 8 implies before[read + k] == t[k] by {
                    assert(before.subrange(read as int, len as int)[k] == t[k]);
                }
            }
        }
        let marker = data[read + ENC_GROUP_SIZE];
        let pad: usize = if desc {
            marker as usize
        } else {
            (ENC_MARKER - marker) as usize
        };
        assert(pad_of(t[8], desc) == pad as int);
        let ghost prefix = before.subrange(0, write as int);
        assert(data@.subrange(0, write as int) == prefix);
        if pad == 0 {
            proof {
                lemma_decode_groups_step(s, read as int, desc);
                assert(s.subrange(read as int, read + 8) =~= t.subrange(0, 8));
                lemma_shift_result_twice(
                    decode_groups(s.subrange(read + 9, len as int), desc),
                    prefix,
                    s.subrange(read as int, read + 8),
                    read as int,
                    9,
                );
                assert(data@.subrange(0, write + 8) =~= prefix + t.subrange(0, 8));
                assert(data@.subrange(read + 9, len as int) =~= s.subrange(read + 9, len as int))
                    by {
                    assert forall|k: int| read + 9 <= k < len implies data@[k] == s[k] by {
                        assert(data@.subrange(read + 8, len as int)[k - read - 8] == before.subrange(
                            read + 8,
                            len as int,
                        )[k - read - 8]);
                        assert(before.subrange(read as int, len as int)[k - read] == s.subrange(
                            read as int,
                            len as int,
                        )[k - read]);
                    }
                }
            }
            write = write + ENC_GROUP_SIZE;
            read = read + ENC_GROUP_SIZE + 1;
            continue ;
        }
        if pad > ENC_GROUP_SIZE {
            return Err(Error::KeyPadding);
        }
        let keep = ENC_GROUP_SIZE - pad;
        let padded = padding_matches(data.as_slice(), write + keep, write + ENC_GROUP_SIZE, desc);
        assert(padding_ok(data@, write + keep, write + 8, desc) == padding_ok(
            t,
            keep as int,
            8,
            desc,
        )) by {
            assert forall|j: int| keep <= j < 8 implies t[j] == data@[write + j] by {
                assert(data@.subrange(write as int, write + 8)[j] == t.subrange(0, 8)[j]);
            }
            assert forall|j: int| write + keep <= j < write + 8 implies data@[j] == t[j - write] by {
                assert(data@.subrange(write as int, write + 8)[j - write] == t.subrange(0, 8)[j
                    - write]);
            }
        }
        if !padded {
            return Err(Error::KeyPadding);
        }
        let ghost raw = prefix + t.subrange(0, keep as int);
        assert(decode_groups(t, desc) == Ok::<(Seq<u8>, int), Error>((t.subrange(0, keep as int), 9)));
        data.truncate(write + keep);
        assert(data@ =~= raw) by {
            assert forall|k: int| write <= k < write + keep implies data@[k] == raw[k] by {
                assert(before.subrange(0, write as int).len() == write);
            }
        }
        if desc {
            complement_in_place(data);
        } else {
            assert(data@ =~= adjust(raw, desc));
        }
        return Ok(());
    }
}

/// The size of the run of groups at the front of `s`: up to and including
/// the first group whose marker is not the full-group marker, or all of `s`
/// when it ends first.
pub open spec fn run_len(s: Seq<u8>, desc: bool) -> int
    decreases s.len(),
{
    if s.len() < 9 {
        s.len() as int
    } else if s[8] != adjust_byte(0xff, desc) {
        9
    } else {
        9 + run_len(s.subrange(9, s.len() as int), desc)
    }
}

/// The size of the first memcomparable run in `encoded`, found from the
/// markers alone; the payload and padding are not checked.
pub fn encoded_bytes_len(encoded: &[u8], desc: bool) -> (r: usize)
    ensures
        r == run_len(encoded@, desc),
{
    let len = encoded.len();
    let mut start: usize = 0;
    assert(encoded@.subrange(0, len as int) =~= encoded@);
    loop
        invariant
            start <= len == encoded@.len(),
            run_len(encoded@, desc) == start + run_len(encoded@.subrange(start as int, len as int), desc),
        decreases len - start,
    {
        let ghost t = encoded@.subrange(start as int, len as int);
        if len - start < ENC_GROUP_SIZE + 1 {
            return len;
        }
        let marker = encoded[start + ENC_GROUP_SIZE];
        assert(t[8] == marker);
        assert(!0xffu8 == 0u8) by (bit_vector);
        if desc && marker != 0 || !desc && marker != ENC_MARKER {
            return start + ENC_GROUP_SIZE + 1;
        }
        assert(t.subrange(9, t.len() as int) =~= encoded@.subrange(start + 9, len as int));
        start = start + ENC_GROUP_SIZE + 1;
    }
}

/// `data` prefixed with the unsigned varint of its length; not
/// memcomparable.
pub open spec fn compact(data: Seq<u8>) -> Seq<u8> {
    var_u64_bytes(data.len() as u64) + data
}

/// Appends `data` prefixed with the varint of its length.
pub fn write_compact_bytes(buf: &mut Vec<u8>, data: &[u8])
    ensures
        final(buf)@ == old(buf)@ + compact(data@),
{
    number::encode_var_u64(buf, data.len() as u64);
    let ghost mid = buf@;
    buf.extend_from_slice(data);
    assert(buf@ =~= mid + data@);
}

/// Decoding compact bytes at the front of `s`: the payload and the number of
/// bytes taken, or why there are none.
pub open spec fn decode_compact(s: Seq<u8>) -> Result<(Seq<u8>, int)> {
    match var_u64_decode(s) {
        Ok((v, n)) => {
            let l = v as int;
            if n + l <= s.len() {
                Ok((s.subrange(n, n + l), n + l))
            } else {
                Err(Error::UnexpectedEof)
            }
        },
        Err(e) => Err(e),
    }
}

/// Compact bytes, followed by anything, decode to the payload and take
/// exactly the prefix and the payload.
pub proof fn lemma_compact_round_trip(data: Seq<u8>, rest: Seq<u8>)
    requires
        data.len() <= u64::MAX,
    ensures
        decode_compact(compact(data) + rest) == Ok::<(Seq<u8>, int), Error>(
            (data, compact(data).len() as int),
        ),
{
    let p = var_u64_bytes(data.len() as u64);
    let s = compact(data) + rest;
    assert(s =~= p + (data + rest));
    number::lemma_var_u64_round_trip(data.len() as u64, data + rest);
    assert(s.subrange(p.len() as int, (p.len() + data.len()) as int) =~= data);
}

/// Decodes bytes written by `write_compact_bytes` and advances `data` past
/// them; on failure `data` is left as it was.
pub fn decode_compact_bytes(data: &mut &[u8]) -> (r: Result<Vec<u8>>)
    ensures
        match decode_compact(old(data)@) {
            Ok((k, n)) => r matches Ok(v) && v@ == k && final(data)@ == old(data)@.subrange(
                n,
                old(data)@.len() as int,
            ),
            Err(e) => r == Err::<Vec<u8>, Error>(e) && final(data)@ == old(data)@,
        },
{
    let s = *data;
    let mut cursor = s;
    let ghost dec = var_u64_decode(s@);
    proof {
        number::lemma_var_u64_decode_len(s@);
    }
    match number::decode_var_u64(&mut cursor) {
        Ok(vn) => {
            let ghost n = dec->Ok_0.1;
            assert(cursor@ == s@.subrange(n, s@.len() as int));
            if vn <= (cursor.len() as u64) {
                let l = vn as usize;
                let bs = vstd::slice::slice_to_vec(vstd::slice::slice_subrange(cursor, 0, l));
                *data = vstd::slice::slice_subrange(cursor, l, cursor.len());
                assert(bs@ =~= s@.subrange(n, n + l));
                assert(data@ =~= s@.subrange(n + l, s@.len() as int));
                Ok(bs)
            } else {
                Err(Error::unexpected_eof())
            }
        },
        Err(e) => Err(e),
    }
}

/// The size of the first compact-encoded entry in `encoded`, length prefix
/// included; the payload is not checked.
pub fn encoded_compact_len(encoded: &[u8]) -> (r: usize)
    requires
        var_u64_decode(encoded@) matches Ok((v, n)) && v + n <= usize::MAX,
    ensures
        var_u64_decode(encoded@) matches Ok((v, n)) && r == v + n,
{
    let mut cursor = encoded;
    let ghost dec = var_u64_decode(encoded@);
    proof {
        number::lemma_var_u64_decode_len(encoded@);
    }
    match number::decode_var_u64(&mut cursor) {
        Ok(vn) => {
            assert(cursor@ == encoded@.subrange(dec->Ok_0.1, encoded@.len() as int));
            vn as usize + (encoded.len() - cursor.len())
        },
        Err(_) => 0,
    }
}


proof fn lemma_encode_asc_index(a: Seq<u8>)
    ensures
        encode_asc(a).len() >= 9,
        forall|i: int| 0 <= i < 8 ==> #[trigger] encode_asc(a)[i] == (if i < a.len() {
            a[i]
        } else {
            0u8
        }),
        encode_asc(a)[8] == (if a.len() >= 8 {
            0xffu8
        } else {
            (0xff - (8 - a.len())) as u8
        }),
        a.len() >= 8 ==> encode_asc(a).subrange(9, encode_asc(a).len() as int) == encode_asc(
            a.subrange(8, a.len() as int),
        ),
{
    lemma_memcomparable_len(a, false);
    assert(adjust(encode_asc(a), false) =~= encode_asc(a));
    if a.len() >= 8 {
        let e = encode_asc(a);
        let rest = encode_asc(a.subrange(8, a.len() as int));
        assert(e == a.subrange(0, 8) + seq![0xffu8] + rest);
        assert(e.subrange(9, e.len() as int) =~= rest);
    } else {
        let p = 8 - a.len();
        assert(encode_asc(a) == a + zeros(p) + seq![(0xff - p) as u8]);
    }
}

/// The ascending forms of a short key and of a longer key that starts with
/// it first differ where the longer one is larger.
proof fn lemma_encode_asc_prefix(s: Seq<u8>, l: Seq<u8>) -> (k: int)
    requires
        s.len() < 8,
        s.len() < l.len(),
        l.subrange(0, s.len() as int) == s,
    ensures
        first_diff(encode_asc(s), encode_asc(l), k),
        encode_asc(s)[k] < encode_asc(l)[k],
{
    let es = encode_asc(s);
    let el = encode_asc(l);
    lemma_encode_asc_index(s);
    lemma_encode_asc_index(l);
    let m: int = if l.len() < 8 {
        l.len() as int
    } else {
        8
    };
    let r = first_mismatch(es, el, s.len() as int, m);
    assert forall|i: int| 0 <= i < s.len() implies es[i] == el[i] by {
        assert(l.subrange(0, s.len() as int)[i] == s[i]);
        assert(es[i] == s[i]);
        assert(el[i] == l[i]);
    }
    if r < m {
        assert(es.subrange(0, r) =~= el.subrange(0, r));
        assert(es[r] == 0);
        r
    } else {
        assert forall|i: int| 0 <= i < 8 implies es[i] == el[i] by {
            if i >= m {
                assert(es[i] == 0);
                assert(el[i] == 0);
            }
        }
        assert(es.subrange(0, 8) =~= el.subrange(0, 8));
        8
    }
}

/// Distinct keys have ascending forms that first differ at a position
/// where the form of the smaller key holds the smaller byte.
proof fn lemma_encode_asc_first_diff(a: Seq<u8>, b: Seq<u8>) -> (k: int)
    requires
        a != b,
    ensures
        first_diff(encode_asc(a), encode_asc(b), k),
        (encode_asc(a)[k] < encode_asc(b)[k]) == lex_lt(a, b),
    decreases a.len(),
{
    let ea = encode_asc(a);
    let eb = encode_asc(b);
    lemma_encode_asc_index(a);
    lemma_encode_asc_index(b);
    let m: int = if a.len() < b.len() {
        if a.len() < 8 {
            a.len() as int
        } else {
            8
        }
    } else {
        if b.len() < 8 {
            b.len() as int
        } else {
            8
        }
    };
    if a.subrange(0, m) != b.subrange(0, m) {
        let j = first_diff_within(a, b, m);
        lemma_lex_cmp_first_diff(a, b, j);
        assert(ea.subrange(0, j) =~= eb.subrange(0, j)) by {
            assert forall|i: int| 0 <= i < j implies ea[i] == eb[i] by {
                assert(a.subrange(0, j)[i] == b.subrange(0, j)[i]);
            }
        }
        j
    } else if a.len() >= 8 && b.len() >= 8 {
        let ta = a.subrange(8, a.len() as int);
        let tb = b.subrange(8, b.len() as int);
        let p = a.subrange(0, 8);
        assert(a =~= p + ta);
        assert(b =~= p + tb);
        let k2 = lemma_encode_asc_first_diff(ta, tb);
        lemma_lex_cmp_common_prefix(p, ta, tb);
        let eta = encode_asc(ta);
        let etb = encode_asc(tb);
        assert(ea.subrange(9, ea.len() as int) == eta);
        assert(eb.subrange(9, eb.len() as int) == etb);
        assert forall|i: int| 0 <= i < 8 implies ea[i] == eb[i] by {
            assert(a.subrange(0, m)[i] == b.subrange(0, m)[i]);
        }
        assert(ea.subrange(0, 9 + k2) =~= eb.subrange(0, 9 + k2)) by {
            assert forall|i: int| 0 <= i < 9 + k2 implies ea[i] == eb[i] by {
                if i >= 9 {
                    assert(ea.subrange(9, ea.len() as int)[i - 9] == eb.subrange(
                        9,
                        eb.len() as int,
                    )[i - 9]) by {
                        assert(eta.subrange(0, k2)[i - 9] == etb.subrange(0, k2)[i - 9]);
                    }
                }
            }
        }
        assert(ea[9 + k2] == eta[k2]);
        assert(eb[9 + k2] == etb[k2]);
        9 + k2
    } else if a.len() < b.len() {
        assert(b.subrange(0, a.len() as int) =~= a) by {
            assert(a.subrange(0, m) =~= a);
        }
        lemma_lex_cmp_strict_prefix(a, b);
        lemma_encode_asc_prefix(a, b)
    } else if b.len() < a.len() {
        assert(a.subrange(0, b.len() as int) =~= b) by {
            assert(b.subrange(0, m) =~= b);
        }
        lemma_lex_cmp_strict_prefix(b, a);
        let k = lemma_encode_asc_prefix(b, a);
        k
    } else {
        assert(a =~= b) by {
            assert(a.subrange(0, m) =~= a);
            assert(b.subrange(0, m) =~= b);
        }
        0
    }
}

/// Comparing memcomparable forms byte by byte orders keys as comparing the
/// keys does; under `desc` the order is reversed.
pub proof fn lemma_memcomparable_order(a: Seq<u8>, b: Seq<u8>)
    ensures
        lex_lt(a, b) <==> lex_lt(memcomparable(a, false), memcomparable(b, false)),
        lex_lt(a, b) <==> lex_lt(memcomparable(b, true), memcomparable(a, true)),
{
    let ea = encode_asc(a);
    let eb = encode_asc(b);
    assert(memcomparable(a, false) =~= ea);
    assert(memcomparable(b, false) =~= eb);
    assert(memcomparable(a, true) =~= ea.map_values(|x: u8| !x));
    assert(memcomparable(b, true) =~= eb.map_values(|x: u8| !x));
    if a == b {
        lemma_lex_cmp_equal(a, b);
        lemma_lex_cmp_equal(ea, eb);
        lemma_lex_cmp_equal(memcomparable(b, true), memcomparable(a, true));
    } else {
        let k = lemma_encode_asc_first_diff(a, b);
        lemma_lex_cmp_first_diff(ea, eb, k);
        lemma_first_diff_complement(ea, eb, k);
        lemma_lex_cmp_first_diff(eb.map_values(|x: u8| !x), ea.map_values(|x: u8| !x), k);
    }
}

} // verus!
