use vstd::prelude::*;

verus! {

/// Three-way unsigned lexicographic comparison of byte strings: -1, 0 or 1.
pub open spec fn lex_cmp(a: Seq<u8>, b: Seq<u8>) -> int
    decreases a.len(),
{
    if a.len() == 0 {
        if b.len() == 0 {
            0
        } else {
            -1
        }
    } else if b.len() == 0 {
        1
    } else if a[0] < b[0] {
        -1
    } else if a[0] > b[0] {
        1
    } else {
        lex_cmp(a.drop_first(), b.drop_first())
    }
}

/// `a` sorts strictly before `b` under unsigned byte comparison.
pub open spec fn lex_lt(a: Seq<u8>, b: Seq<u8>) -> bool {
    lex_cmp(a, b) < 0
}

/// `k` is the first position where `x` and `y` differ, inside both.
pub open spec fn first_diff(x: Seq<u8>, y: Seq<u8>, k: int) -> bool {
    &&& 0 <= k < x.len()
    &&& k < y.len()
    &&& x.subrange(0, k) == y.subrange(0, k)
    &&& x[k] != y[k]
}

pub proof fn lemma_lex_cmp_equal(a: Seq<u8>, b: Seq<u8>)
    ensures
        lex_cmp(a, b) == 0 <==> a == b,
    decreases a.len(),
{
    if a.len() == 0 && b.len() == 0 {
        assert(a =~= b);
    }
    if a.len() > 0 && b.len() > 0 && a[0] == b[0] {
        lemma_lex_cmp_equal(a.drop_first(), b.drop_first());
        if a.drop_first() == b.drop_first() {
            assert(a =~= seq![a[0]] + a.drop_first());
            assert(b =~= seq![b[0]] + b.drop_first());
        }
        if a == b {
            assert(a.drop_first() =~= b.drop_first());
        }
    }
}

/// The comparison is decided at the first position where the strings differ.
pub proof fn lemma_lex_cmp_first_diff(x: Seq<u8>, y: Seq<u8>, k: int)
    requires
        first_diff(x, y, k),
    ensures
        lex_cmp(x, y) == (if x[k] < y[k] {
            -1int
        } else {
            1int
        }),
    decreases k,
{
    if k > 0 {
        assert(x[0] == x.subrange(0, k)[0]);
        assert(y[0] == y.subrange(0, k)[0]);
        assert(x.drop_first().subrange(0, k - 1) =~= y.drop_first().subrange(0, k - 1)) by {
            assert forall|i: int| 0 <= i < k - 1 implies #[trigger] x.drop_first()[i]
                == y.drop_first()[i] by {
                assert(x.subrange(0, k)[i + 1] == y.subrange(0, k)[i + 1]);
            }
        }
        lemma_lex_cmp_first_diff(x.drop_first(), y.drop_first(), k - 1);
    }
}

/// A strict prefix sorts before the longer string.
pub proof fn lemma_lex_cmp_strict_prefix(a: Seq<u8>, b: Seq<u8>)
    requires
        a.len() < b.len(),
        b.subrange(0, a.len() as int) == a,
    ensures
        lex_cmp(a, b) == -1,
        lex_cmp(b, a) == 1,
    decreases a.len(),
{
    if a.len() > 0 {
        assert(b[0] == b.subrange(0, a.len() as int)[0]);
        assert(b.drop_first().subrange(0, a.len() - 1) =~= a.drop_first()) by {
            assert forall|i: int| 0 <= i < a.len() - 1 implies #[trigger] b.drop_first()[i]
                == a.drop_first()[i] by {
                assert(b.subrange(0, a.len() as int)[i + 1] == a[i + 1]);
            }
        }
        lemma_lex_cmp_strict_prefix(a.drop_first(), b.drop_first());
    }
}

/// A common prefix does not change the comparison.
pub proof fn lemma_lex_cmp_common_prefix(p: Seq<u8>, a: Seq<u8>, b: Seq<u8>)
    ensures
        lex_cmp(p + a, p + b) == lex_cmp(a, b),
    decreases p.len(),
{
    if p.len() > 0 {
        assert((p + a).drop_first() =~= p.drop_first() + a);
        assert((p + b).drop_first() =~= p.drop_first() + b);
        lemma_lex_cmp_common_prefix(p.drop_first(), a, b);
    } else {
        assert(p + a =~= a);
        assert(p + b =~= b);
    }
}

/// The first position at or after `i`, below `m`, where `a` and `b` differ,
/// or `m` when there is none.
pub proof fn first_mismatch(a: Seq<u8>, b: Seq<u8>, i: int, m: int) -> (r: int)
    requires
        0 <= i <= m,
        m <= a.len(),
        m <= b.len(),
    ensures
        i <= r <= m,
        forall|j: int| i <= j < r ==> a[j] == b[j],
        r < m ==> a[r] != b[r],
    decreases m - i,
{
    if i >= m {
        m
    } else if a[i] != b[i] {
        i
    } else {
        first_mismatch(a, b, i + 1, m)
    }
}

/// The first position where two strings that differ within `m` positions do.
pub proof fn first_diff_within(a: Seq<u8>, b: Seq<u8>, m: int) -> (r: int)
    requires
        0 <= m <= a.len(),
        m <= b.len(),
        a.subrange(0, m) != b.subrange(0, m),
    ensures
        first_diff(a, b, r),
        r < m,
{
    let r = first_mismatch(a, b, 0, m);
    if r == m {
        assert(a.subrange(0, m) =~= b.subrange(0, m));
    }
    assert(a.subrange(0, r) =~= b.subrange(0, r));
    r
}

/// Complementing every byte turns a first difference around.
pub proof fn lemma_first_diff_complement(x: Seq<u8>, y: Seq<u8>, k: int)
    requires
        first_diff(x, y, k),
    ensures
        first_diff(x.map_values(|b: u8| !b), y.map_values(|b: u8| !b), k),
        (x.map_values(|b: u8| !b)[k] < y.map_values(|b: u8| !b)[k]) == (y[k] < x[k]),
{
    let cx = x.map_values(|b: u8| !b);
    let cy = y.map_values(|b: u8| !b);
    assert(cx.subrange(0, k) =~= cy.subrange(0, k)) by {
        assert forall|i: int| 0 <= i < k implies cx[i] == cy[i] by {
            assert(x.subrange(0, k)[i] == y.subrange(0, k)[i]);
        }
    }
    let (p, q) = (x[k], y[k]);
    assert(p != q ==> !p != !q && ((!p < !q) == (q < p))) by (bit_vector);
}


/// The `Ordering` that a three-way comparison result stands for.
pub open spec fn ordering_of(c: int) -> core::cmp::Ordering {
    if c < 0 {
        core::cmp::Ordering::Less
    } else if c == 0 {
        core::cmp::Ordering::Equal
    } else {
        core::cmp::Ordering::Greater
    }
}

/// Unsigned lexicographic comparison of `a` and `b`.
pub fn compare_bytes(a: &[u8], b: &[u8]) -> (r: core::cmp::Ordering)
    ensures
        r == ordering_of(lex_cmp(a@, b@)),
{
    let la = a.len();
    let lb = b.len();
    let mut i: usize = 0;
    assert(a@.subrange(0, 0) =~= Seq::<u8>::empty());
    assert(a@.subrange(0, la as int) =~= a@);
    assert(b@.subrange(0, lb as int) =~= b@);
    while i < la && i < lb && a[i] == b[i]
        invariant
            i <= la == a@.len(),
            i <= lb == b@.len(),
            a@.subrange(0, i as int) == b@.subrange(0, i as int),
            lex_cmp(a@, b@) == lex_cmp(
                a@.subrange(i as int, la as int),
                b@.subrange(i as int, lb as int),
            ),
        decreases la - i,
    {
        let ghost (ta, tb) = (a@.subrange(i as int, la as int), b@.subrange(i as int, lb as int));
        assert(ta.drop_first() =~= a@.subrange(i + 1, la as int));
        assert(tb.drop_first() =~= b@.subrange(i + 1, lb as int));
        i = i + 1;
        assert(a@.subrange(0, i as int) =~= a@.subrange(0, i - 1).push(a@[i - 1]));
        assert(b@.subrange(0, i as int) =~= b@.subrange(0, i - 1).push(b@[i - 1]));
    }
    if i < la && i < lb {
        if a[i] < b[i] {
            core::cmp::Ordering::Less
        } else {
            core::cmp::Ordering::Greater
        }
    } else if la < lb {
        core::cmp::Ordering::Less
    } else if la == lb {
        core::cmp::Ordering::Equal
    } else {
        core::cmp::Ordering::Greater
    }
}

} // verus!
