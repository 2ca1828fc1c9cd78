use vstd::prelude::*;

use crate::number;
use crate::number::{order_i64, u64_be};

verus! {

/// Bytes of a handle or an index id.
pub const ID_LEN: usize = 8;

/// Bytes of the table prefix.
pub const TABLE_PREFIX_LEN: usize = 1;

/// Bytes of a record or index separator.
pub const SEP_LEN: usize = 2;

/// Bytes of the table prefix, the table id and the separator.
pub const PREFIX_LEN: usize = TABLE_PREFIX_LEN + ID_LEN + SEP_LEN;

/// Bytes of a row key: the prefix and the handle.
pub const RECORD_ROW_KEY_LEN: usize = PREFIX_LEN + ID_LEN;

/// Bytes of the table prefix and the table id.
pub const TABLE_PREFIX_KEY_LEN: usize = TABLE_PREFIX_LEN + ID_LEN;

/// The byte that starts every table key: `t`.
pub const TABLE_PREFIX: u8 = 0x74;

/// The separator before a record handle: `_r`.
pub const RECORD_PREFIX_SEP: [u8; 2] = [0x5f, 0x72];

/// The separator before an index id: `_i`.
pub const INDEX_PREFIX_SEP: [u8; 2] = [0x5f, 0x69];

/// `t`, the ordered encoding of `table_id`, then `_r`.
pub open spec fn record_prefix(table_id: i64) -> Seq<u8> {
    seq![0x74u8] + u64_be(order_i64(table_id)) + seq![0x5fu8, 0x72u8]
}

/// `t`, the ordered encoding of `table_id`, then `_i`.
pub open spec fn index_prefix(table_id: i64) -> Seq<u8> {
    seq![0x74u8] + u64_be(order_i64(table_id)) + seq![0x5fu8, 0x69u8]
}

/// Appends the record prefix of `table_id`.
pub fn append_table_record_prefix(buf: &mut Vec<u8>, table_id: i64)
    ensures
        final(buf)@ == old(buf)@ + record_prefix(table_id),
{
    buf.push(TABLE_PREFIX);
    number::encode_i64(buf, table_id);
    buf.push(RECORD_PREFIX_SEP[0]);
    buf.push(RECORD_PREFIX_SEP[1]);
    assert(buf@ =~= old(buf)@ + record_prefix(table_id));
}

/// Appends the index prefix of `table_id`.
pub fn append_table_index_prefix(buf: &mut Vec<u8>, table_id: i64)
    ensures
        final(buf)@ == old(buf)@ + index_prefix(table_id),
{
    buf.push(TABLE_PREFIX);
    number::encode_i64(buf, table_id);
    buf.push(INDEX_PREFIX_SEP[0]);
    buf.push(INDEX_PREFIX_SEP[1]);
    assert(buf@ =~= old(buf)@ + index_prefix(table_id));
}

/// The table prefix of a record or index key: `t` and the table id.
pub fn extract_table_prefix(key: &[u8]) -> (r: &[u8])
    requires
        key@.len() >= TABLE_PREFIX_KEY_LEN,
        key@[0] == TABLE_PREFIX,
    ensures
        r@ == key@.subrange(0, TABLE_PREFIX_KEY_LEN as int),
{
    vstd::slice::slice_subrange(key, 0, TABLE_PREFIX_KEY_LEN)
}

/// The row key of `handle` in table `table_id`.
pub fn encode_row_key(table_id: i64, handle: i64) -> (r: Vec<u8>)
    ensures
        r@ == record_prefix(table_id) + u64_be(order_i64(handle)),
{
    let mut key = Vec::with_capacity(RECORD_ROW_KEY_LEN);
    append_table_record_prefix(&mut key, table_id);
    number::encode_i64(&mut key, handle);
    assert(key@ =~= record_prefix(table_id) + u64_be(order_i64(handle)));
    key
}

/// The key of column `column_id` of row `handle` in table `table_id`.
pub fn encode_column_key(table_id: i64, handle: i64, column_id: i64) -> (r: Vec<u8>)
    ensures
        r@ == record_prefix(table_id) + u64_be(order_i64(handle)) + u64_be(order_i64(column_id)),
{
    let mut key = Vec::with_capacity(RECORD_ROW_KEY_LEN + ID_LEN);
    append_table_record_prefix(&mut key, table_id);
    number::encode_i64(&mut key, handle);
    number::encode_i64(&mut key, column_id);
    assert(key@ =~= record_prefix(table_id) + u64_be(order_i64(handle)) + u64_be(
        order_i64(column_id),
    ));
    key
}

} // verus!
