//! Bit-level vocabulary: which bits of a 64-bit word are set, how the word
//! operations used by the board act on single bits, and how set bits are
//! counted.

use vstd::prelude::*;
use vstd::std_specs::bits::{axiom_u64_trailing_zeros, u64_trailing_zeros};

verus! {

/// Bit `i` of `x` is set. False for every `i` outside `0..64`.
pub open spec fn bit(x: u64, i: int) -> bool {
    0 <= i < 64 && (x >> (i as u64)) & 1 == 1
}

proof fn bv_connectives(a: u64, b: u64, i: u64)
    by (bit_vector)
    requires
        i < 64,
    ensures
        ((a & b) >> i) & 1 == 1 <==> ((a >> i) & 1 == 1 && (b >> i) & 1 == 1),
        ((a | b) >> i) & 1 == 1 <==> ((a >> i) & 1 == 1 || (b >> i) & 1 == 1),
        ((!a) >> i) & 1 == 1 <==> !((a >> i) & 1 == 1),
{
}

proof fn bv_shifts(x: u64, s: u64, i: u64)
    by (bit_vector)
    requires
        i < 64,
        s < 64,
    ensures
        ((x >> s) >> i) & 1 == 1 <==> (i + s < 64 && (x >> ((i + s) as u64)) & 1 == 1),
        ((x << s) >> i) & 1 == 1 <==> (i >= s && (x >> ((i - s) as u64)) & 1 == 1),
        ((1u64 << s) >> i) & 1 == 1 <==> i == s,
{
}

/// A bit of `a & b` is set where it is set in both.
pub proof fn lemma_bit_and(a: u64, b: u64, i: int)
    ensures
        bit(a & b, i) == (bit(a, i) && bit(b, i)),
{
    if 0 <= i < 64 {
        bv_connectives(a, b, i as u64);
    }
}

/// A bit of `a | b` is set where it is set in either.
pub proof fn lemma_bit_or(a: u64, b: u64, i: int)
    ensures
        bit(a | b, i) == (bit(a, i) || bit(b, i)),
{
    if 0 <= i < 64 {
        bv_connectives(a, b, i as u64);
    }
}

/// A bit of `!a` is set where it is not set in `a`.
pub proof fn lemma_bit_not(a: u64, i: int)
    ensures
        bit(!a, i) == (0 <= i < 64 && !bit(a, i)),
{
    if 0 <= i < 64 {
        bv_connectives(a, a, i as u64);
    }
}

/// Bit `i` of `x >> s` is bit `i + s` of `x`.
pub proof fn lemma_bit_shr(x: u64, s: u64, i: int)
    requires
        s < 64,
    ensures
        bit(x >> s, i) == (0 <= i && bit(x, i + s)),
{
    if 0 <= i < 64 {
        bv_shifts(x, s, i as u64);
    }
}

/// Bit `i` of `x << s` is bit `i - s` of `x`.
pub proof fn lemma_bit_shl(x: u64, s: u64, i: int)
    requires
        s < 64,
    ensures
        bit(x << s, i) == (i < 64 && bit(x, i - s)),
{
    if 0 <= i < 64 {
        bv_shifts(x, s, i as u64);
    }
}

/// `1 << s` holds bit `s` and no other.
pub proof fn lemma_bit_one(s: u64, i: int)
    requires
        s < 64,
    ensures
        bit(1u64 << s, i) == (i == s),
{
    if 0 <= i < 64 {
        bv_shifts(0, s, i as u64);
    }
}

proof fn bv_lowest(x: u64, i: u64, j: u64)
    by (bit_vector)
    requires
        i < 64,
        j < i,
        ((x & ((!x + 1) as u64)) >> i) & 1 == 1,
    ensures
        (x >> i) & 1 == 1,
        (x >> j) & 1 == 0,
{
}

proof fn bv_nonzero(x: u64, i: u64)
    by (bit_vector)
    requires
        i < 64,
        (x >> i) & 1 == 1,
    ensures
        x != 0,
        x & ((!x + 1) as u64) != 0,
        !x < 0xffff_ffff_ffff_ffffu64,
        x & ((x - 1) as u64) == x & !(x & ((!x + 1) as u64)),
{
}

/// A word that has a set bit is not zero.
pub proof fn lemma_bit_nonzero(x: u64, i: int)
    requires
        bit(x, i),
    ensures
        x != 0,
{
    bv_nonzero(x, i as u64);
}

/// `t` is the index of the lowest set bit of `x`.
pub open spec fn lowest_set(x: u64, t: int) -> bool {
    bit(x, t) && forall|j: int| 0 <= j < t ==> !bit(x, j)
}

/// The number of trailing zeros of a nonzero word is the index of its lowest
/// set bit.
pub proof fn lemma_trailing_zeros(x: u64)
    requires
        x != 0,
    ensures
        lowest_set(x, u64_trailing_zeros(x) as int),
{
    axiom_u64_trailing_zeros(x);
    let t = u64_trailing_zeros(x);
    assert forall|j: int| 0 <= j < t implies !bit(x, j) by {
        let k = j as u64;
        assert((x >> k) & 1u64 == 0u64);
    }
}

/// A word has at most one lowest set bit.
pub proof fn lemma_lowest_set_unique(x: u64, s: int, t: int)
    requires
        lowest_set(x, s),
        lowest_set(x, t),
    ensures
        s == t,
{
}

/// The word that holds the lowest set bit of `x` and nothing else.
pub open spec fn isolated(x: u64) -> u64 {
    x & ((!x + 1) as u64)
}

/// `isolated(x)` holds exactly one bit, at the index of the lowest set bit
/// of `x`.
pub proof fn lemma_isolated(x: u64)
    requires
        x != 0,
    ensures
        forall|i: int| bit(isolated(x), i) <==> i == u64_trailing_zeros(x),
{
    lemma_trailing_zeros(x);
    let t = u64_trailing_zeros(x) as int;
    bv_nonzero(x, t as u64);
    let r = isolated(x);
    lemma_trailing_zeros(r);
    let s = u64_trailing_zeros(r) as int;
    assert forall|i: int| bit(r, i) implies lowest_set(x, i) by {
        assert forall|j: int| 0 <= j < i implies !bit(x, j) by {
            bv_lowest(x, i as u64, j as u64);
        }
        if i > 0 {
            bv_lowest(x, i as u64, 0);
        } else {
            lemma_bit_and(x, (!x + 1) as u64, i);
        }
    }
    assert forall|i: int| bit(r, i) <==> i == t by {
        if bit(r, i) {
            lemma_lowest_set_unique(x, i, t);
        }
        lemma_lowest_set_unique(x, s, t);
    }
}

/// Isolates the lowest set bit of a nonzero word.
pub fn lowest(x: u64) -> (r: u64)
    requires
        x != 0,
    ensures
        forall|i: int| bit(r, i) <==> i == u64_trailing_zeros(x),
{
    proof {
        lemma_trailing_zeros(x);
        bv_nonzero(x, u64_trailing_zeros(x) as u64);
        lemma_isolated(x);
    }
    let r = x & (!x + 1);
    assert(r == isolated(x));
    r
}

/// Clears the lowest set bit of a nonzero word.
pub fn clear_lowest(x: u64) -> (r: u64)
    requires
        x != 0,
    ensures
        forall|i: int| bit(r, i) <==> bit(x, i) && i != u64_trailing_zeros(x),
{
    proof {
        lemma_trailing_zeros(x);
        bv_nonzero(x, u64_trailing_zeros(x) as u64);
        lemma_isolated(x);
        assert forall|i: int|
            bit(x & !isolated(x), i) <==> bit(x, i) && i != u64_trailing_zeros(x) by {
            lemma_bit_and(x, !isolated(x), i);
            lemma_bit_not(isolated(x), i);
        }
    }
    let r = x & (x - 1);
    assert(r == x & !isolated(x));
    r
}

proof fn bv_differ(x: u64, y: u64, i: u64)
    by (bit_vector)
    requires
        i < 64,
    ensures
        ((x ^ y) >> i) & 1 == 1 <==> ((x >> i) & 1 == 1) != ((y >> i) & 1 == 1),
        x ^ y == 0 ==> x == y,
{
}

/// Two words with the same bits are the same word.
pub proof fn lemma_same_bits(x: u64, y: u64)
    requires
        forall|i: int| 0 <= i < 64 ==> bit(x, i) == bit(y, i),
    ensures
        x == y,
{
    let z = x ^ y;
    if z != 0 {
        lemma_trailing_zeros(z);
        let t = u64_trailing_zeros(z) as int;
        bv_differ(x, y, t as u64);
        assert(bit(x, t) != bit(y, t));
    }
    bv_differ(x, y, 0);
}

/// The number of indices from 0 up to `n`, `n` left out, at which `p` holds.
pub open spec fn tally(p: spec_fn(int) -> bool, n: int) -> int
    decreases n,
{
    if n <= 0 {
        0
    } else {
        tally(p, n - 1) + if p(n - 1) {
            1int
        } else {
            0int
        }
    }
}

/// The number of set bits of `x`.
pub open spec fn ones(x: u64) -> int {
    tally(|i: int| bit(x, i), 64)
}

/// `u64::count_ones` of std: the number of ones in the binary representation
/// of the word, which is the number of indices from 0 to 63 whose bit is
/// set.
pub assume_specification[ u64::count_ones ](x: u64) -> (n: u32)
    ensures
        n == ones(x),
;

/// A tally of `n` indices lies between 0 and `n`.
pub proof fn lemma_tally_bounds(p: spec_fn(int) -> bool, n: int)
    requires
        0 <= n,
    ensures
        0 <= tally(p, n) <= n,
    decreases n,
{
    if n > 0 {
        lemma_tally_bounds(p, n - 1);
    }
}

/// Two properties that agree below `n` have the same tally.
pub proof fn lemma_tally_agree(p: spec_fn(int) -> bool, q: spec_fn(int) -> bool, n: int)
    requires
        forall|i: int| 0 <= i < n ==> #[trigger] p(i) == q(i),
    ensures
        tally(p, n) == tally(q, n),
    decreases n,
{
    if n > 0 {
        lemma_tally_agree(p, q, n - 1);
    }
}

/// Indices at which the property fails add nothing to the tally.
pub proof fn lemma_tally_rest(p: spec_fn(int) -> bool, n: int, m: int)
    requires
        0 <= n <= m,
        forall|i: int| n <= i < m ==> !#[trigger] p(i),
    ensures
        tally(p, m) == tally(p, n),
    decreases m - n,
{
    if n < m {
        lemma_tally_rest(p, n, m - 1);
    }
}

/// A tally over more indices is no smaller.
pub proof fn lemma_tally_grows(p: spec_fn(int) -> bool, n: int, m: int)
    requires
        n <= m,
    ensures
        tally(p, n) <= tally(p, m),
    decreases m - n,
{
    if n < m {
        lemma_tally_grows(p, n, m - 1);
    }
    if m <= 0 {
        assert(tally(p, n) == 0);
    }
}

/// A property that holds only where another holds has no greater tally.
pub proof fn lemma_tally_below(p: spec_fn(int) -> bool, q: spec_fn(int) -> bool, n: int)
    requires
        forall|i: int| 0 <= i < n && #[trigger] p(i) ==> q(i),
    ensures
        tally(p, n) <= tally(q, n),
    decreases n,
{
    if n > 0 {
        lemma_tally_below(p, q, n - 1);
    }
}

/// Two properties that never hold together have tallies that add up to no
/// more than the number of indices.
pub proof fn lemma_tally_apart(p: spec_fn(int) -> bool, q: spec_fn(int) -> bool, n: int)
    requires
        0 <= n,
        forall|i: int| 0 <= i < n ==> !(#[trigger] p(i) && q(i)),
    ensures
        tally(p, n) + tally(q, n) <= n,
    decreases n,
{
    if n > 0 {
        lemma_tally_apart(p, q, n - 1);
    }
}

/// A property that holds at four indices has a tally of four at least.
pub proof fn lemma_tally_four(p: spec_fn(int) -> bool, n: int, a: int, b: int, c: int, d: int)
    requires
        0 <= a < b < c < d < n,
        p(a),
        p(b),
        p(c),
        p(d),
    ensures
        tally(p, n) >= 4,
{
    lemma_tally_bounds(p, a);
    lemma_tally_grows(p, a + 1, b);
    lemma_tally_grows(p, b + 1, c);
    lemma_tally_grows(p, c + 1, d);
    lemma_tally_grows(p, d + 1, n);
}

} // verus!
