use vstd::prelude::*;

use crate::key::Key;
use crate::number::u64_be;
use crate::schema;
use crate::schema::record_prefix;
use crate::number::order_i64;

verus! {

/// Size classes of generated values.
#[derive(Copy, Clone, Debug, PartialEq, Eq, Structural)]
pub enum ValueType {
    /// 64 bytes
    MiddleValue,
    /// 128 bytes
    LongValue,
    /// 256 bytes
    LongLongValue,
    /// 64, 128 or 256 bytes, picked at random for each value
    MixValue,
}

/// The value sizes that `MixValue` picks from.
pub const CHOICES: [u64; 3] = [64, 128, 256];

/// Relies on rand's thread_rng and Rng::gen_range: a number in `[0, n)`.
#[verifier::external_body]
fn random_below(n: usize) -> (r: usize)
    requires
        n > 0,
    ensures
        r < n,
{
    rand::Rng::gen_range(&mut rand::thread_rng(), 0, n)
}

impl ValueType {
    /// The value size for this class, where `choice < 3` picks the size of
    /// `MixValue`.
    pub fn value_for_choice(&self, choice: usize) -> (r: u64)
        requires
            choice < 3,
        ensures
            r == (match *self {
                ValueType::MiddleValue => 64,
                ValueType::LongValue => 128,
                ValueType::LongLongValue => 256,
                ValueType::MixValue => if choice == 0 {
                    64u64
                } else if choice == 1 {
                    128
                } else {
                    256
                },
            }),
    {
        match *self {
            ValueType::MiddleValue => 64,
            ValueType::LongValue => 128,
            ValueType::LongLongValue => 256,
            ValueType::MixValue => CHOICES[choice],
        }
    }

    /// The value size for this class; `MixValue` picks one at random.
    pub fn value(&self) -> (r: u64)
        ensures
            *self == ValueType::MiddleValue ==> r == 64,
            *self == ValueType::LongValue ==> r == 128,
            *self == ValueType::LongLongValue ==> r == 256,
            *self == ValueType::MixValue ==> r == 64 || r == 128 || r == 256,
    {
        let choice = random_below(3);
        self.value_for_choice(choice)
    }
}

/// The two versioned keys of one generated record: the row key of `handle`
/// in `table_id` with `commit_ts` appended, and with `start_ts` appended.
pub fn record_version_keys(table_id: i64, handle: i64, start_ts: u64, commit_ts: u64) -> (r: (
    Vec<u8>,
    Vec<u8>,
))
    ensures
        r.0@ == record_prefix(table_id) + u64_be(order_i64(handle)) + u64_be(!commit_ts),
        r.1@ == record_prefix(table_id) + u64_be(order_i64(handle)) + u64_be(!start_ts),
{
    let write_key = schema::encode_row_key(table_id, handle);
    let commit_key = Key::from_encoded_slice(write_key.as_slice());
    let commit_key = commit_key.append_ts(commit_ts).into_encoded();
    let start_key = Key::from_encoded_slice(write_key.as_slice());
    let start_key = start_key.append_ts(start_ts).into_encoded();
    (commit_key, start_key)
}

} // verus!
