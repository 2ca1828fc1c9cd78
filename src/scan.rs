use vstd::prelude::*;

verus! {

/// The row key of handle 0 in table 0: the default lower scan bound.
pub const LOWEST_KEY_STR: [u8; 19] = [
    116, 128, 0, 0, 0, 0, 0, 0, 0, 95, 114, 128, 0, 0, 0, 0, 0, 0, 0,
];

/// The row key of handle 2000 in table 30: the default upper scan bound.
pub const LARGEST_KEY_STR: [u8; 19] = [
    116, 128, 0, 0, 0, 0, 0, 0, 30, 95, 114, 128, 0, 0, 0, 0, 0, 7, 208,
];

/// The row key of handle 0 in table 7.
pub const DIST_QT1_KEY: [u8; 19] = [
    116, 128, 0, 0, 0, 0, 0, 0, 7, 95, 114, 128, 0, 0, 0, 0, 0, 0, 0,
];

/// The row key of handle 2000 in table 22.
pub const DIST_QT3_KEY: [u8; 19] = [
    116, 128, 0, 0, 0, 0, 0, 0, 22, 95, 114, 128, 0, 0, 0, 0, 0, 7, 208,
];

/// The bounds of a range scan.
#[derive(Clone, Debug)]
pub struct ScannerConfig {
    pub lower_bound: Vec<u8>,
    pub upper_bound: Vec<u8>,
}

/// The default lower bound, as bytes.
pub open spec fn lowest_key() -> Seq<u8> {
    seq![116u8, 128, 0, 0, 0, 0, 0, 0, 0, 95, 114, 128, 0, 0, 0, 0, 0, 0, 0]
}

/// The default upper bound, as bytes.
pub open spec fn largest_key() -> Seq<u8> {
    seq![116u8, 128, 0, 0, 0, 0, 0, 0, 30, 95, 114, 128, 0, 0, 0, 0, 0, 7, 208]
}

/// A copy of the 19 bytes of `a`.
fn key_vec(a: &[u8; 19]) -> (r: Vec<u8>)
    ensures
        r@ == a@,
{
    let mut v = Vec::with_capacity(19);
    let mut i: usize = 0;
    while i < 19
        invariant
            i <= 19,
            a@.len() == 19,
            v@ == a@.subrange(0, i as int),
        decreases 19 - i,
    {
        v.push(a[i]);
        i = i + 1;
        assert(v@ =~= a@.subrange(0, i as int));
    }
    assert(a@.subrange(0, 19) =~= a@);
    v
}

impl ScannerConfig {
    /// A scan between the given bounds; an absent bound is the default one.
    pub fn new(lower_bound: Option<Vec<u8>>, upper_bound: Option<Vec<u8>>) -> (r: ScannerConfig)
        ensures
            r.lower_bound@ == (match lower_bound {
                None => lowest_key(),
                Some(v) => v@,
            }),
            r.upper_bound@ == (match upper_bound {
                None => largest_key(),
                Some(v) => v@,
            }),
    {
        let lower_bound = match lower_bound {
            None => {
                let v = key_vec(&LOWEST_KEY_STR);
                assert(v@ =~= lowest_key());
                v
            },
            Some(v) => v,
        };
        let upper_bound = match upper_bound {
            None => {
                let v = key_vec(&LARGEST_KEY_STR);
                assert(v@ =~= largest_key());
                v
            },
            Some(v) => v,
        };
        ScannerConfig { lower_bound, upper_bound }
    }
}

impl Default for ScannerConfig {
    /// A scan over the whole default range.
    fn default() -> (r: Self)
        ensures
            r.lower_bound@ == lowest_key(),
            r.upper_bound@ == largest_key(),
    {
        ScannerConfig::new(None, None)
    }
}

} // verus!
