//! Single-bit facts about `u128` words, the rows and tracks of the bitboards.
use vstd::prelude::*;

verus! {

/// Bit `i` of `w` is set.
pub open spec fn bit(w: u128, i: u128) -> bool {
    (w >> i) & 1u128 == 1u128
}

/// Setting bit `i` changes only bit `i`.
pub proof fn lemma_bit_set(w: u128, i: u128, j: u128)
    requires
        i < 128,
        j < 128,
    ensures
        bit(w | (1u128 << i), j) == (j == i || bit(w, j)),
{
    assert(((w | (1u128 << i)) >> j) & 1u128 == 1u128 <==> (j == i || (w >> j) & 1u128 == 1u128))
        by (bit_vector)
        requires
            i < 128,
            j < 128,
    ;
}

/// Clearing bit `i` changes only bit `i`.
pub proof fn lemma_bit_clear(w: u128, i: u128, j: u128)
    requires
        i < 128,
        j < 128,
    ensures
        bit(w & !(1u128 << i), j) == (j != i && bit(w, j)),
{
    assert(((w & !(1u128 << i)) >> j) & 1u128 == 1u128 <==> (j != i && (w >> j) & 1u128 == 1u128))
        by (bit_vector)
        requires
            i < 128,
            j < 128,
    ;
}

/// The empty word has no bit set.
pub proof fn lemma_bit_zero(j: u128)
    ensures
        !bit(0u128, j),
{
    assert((0u128 >> j) & 1u128 != 1u128) by (bit_vector);
}

/// Testing bit `i` with a one-bit mask.
pub proof fn lemma_bit_test(w: u128, i: u128)
    requires
        i < 128,
    ensures
        (w & (1u128 << i) != 0) == bit(w, i),
{
    assert((w & (1u128 << i) != 0u128) <==> ((w >> i) & 1u128 == 1u128)) by (bit_vector)
        requires
            i < 128,
    ;
}

/// Bits of a conjunction.
pub proof fn lemma_bit_and(x: u128, y: u128, j: u128)
    requires
        j < 128,
    ensures
        bit(x & y, j) == (bit(x, j) && bit(y, j)),
{
    assert((((x & y) >> j) & 1u128 == 1u128) <==> ((x >> j) & 1u128 == 1u128 && (y >> j) & 1u128
        == 1u128)) by (bit_vector)
        requires
            j < 128,
    ;
}

/// Bits of a complement.
pub proof fn lemma_bit_not(x: u128, j: u128)
    requires
        j < 128,
    ensures
        bit(!x, j) == !bit(x, j),
{
    assert((((!x) >> j) & 1u128 == 1u128) <==> !((x >> j) & 1u128 == 1u128)) by (bit_vector)
        requires
            j < 128,
    ;
}

/// A word with a set bit is non-zero.
pub proof fn lemma_bit_nonzero(x: u128, j: u128)
    requires
        j < 128,
        bit(x, j),
    ensures
        x != 0,
{
    assert((x >> j) & 1u128 == 1u128 ==> x != 0u128) by (bit_vector);
}

/// Bits of a right shift: bit `j` of `x >> s` is bit `j + s` of `x`.
pub proof fn lemma_bit_shr(x: u128, s: u128, j: u128)
    requires
        s < 128,
        j < 128,
    ensures
        bit(x >> s, j) == (j + s < 128 && bit(x, (j + s) as u128)),
{
    if j + s < 128 {
        assert(((x >> s) >> j) & 1u128 == (x >> ((j + s) as u128)) & 1u128) by (bit_vector)
            requires
                s < 128,
                j < 128,
                j + s < 128,
        ;
    } else {
        assert(((x >> s) >> j) & 1u128 == 0u128) by (bit_vector)
            requires
                s < 128,
                j < 128,
                j + s >= 128,
        ;
    }
}

/// The low mask `(1 << a) - 1` has exactly the bits below `a`.
pub proof fn lemma_low_mask(a: u128, j: u128)
    requires
        a < 128,
        j < 128,
    ensures
        bit(((1u128 << a) - 1) as u128, j) == (j < a),
{
    assert(((((1u128 << a) - 1u128) as u128 >> j) & 1u128 == 1u128) <==> (j < a)) by (bit_vector)
        requires
            a < 128,
            j < 128,
    ;
}

/// A shifted one is non-zero.
pub proof fn lemma_one_shl(a: u128)
    requires
        a < 128,
    ensures
        (1u128 << a) >= 1,
{
    assert((1u128 << a) >= 1u128) by (bit_vector)
        requires
            a < 128,
    ;
}

/// Every bit of the all-ones word is set.
pub proof fn lemma_bit_max(j: u128)
    requires
        j < 128,
    ensures
        bit(u128::MAX, j),
{
    assert((0xffff_ffff_ffff_ffff_ffff_ffff_ffff_ffffu128 >> j) & 1u128 == 1u128) by (bit_vector)
        requires
            j < 128,
    ;
}

/// Index of the lowest set bit of a non-zero word; clearing it with
/// `x & (x - 1)` leaves the other bits.
pub fn lowest_bit(x: u128) -> (r: u32)
    requires
        x != 0,
    ensures
        r < 128,
        bit(x, r as u128),
        forall|j: u128| j < r ==> !#[trigger] bit(x, j),
        (x & (x - 1) as u128) == x & !(1u128 << (r as u128)),
{
    let lo = x as u64;
    if lo != 0 {
        let t = lo.trailing_zeros();
        proof {
            vstd::std_specs::bits::axiom_u64_trailing_zeros(lo);
            let tt = t as u64;
            assert(tt < 64);
            assert((lo >> tt) & 1u64 == 1u64);
            assert(lo << ((64 - tt) as u64) == 0u64);
            lemma_low_half(x, tt);
            assert forall|j: u128| j < t implies !#[trigger] bit(x, j) by {
                lemma_no_bit_below(x, t as u128, j);
            }
        }
        t
    } else {
        let hi = (x >> 64u32) as u64;
        let t = hi.trailing_zeros();
        proof {
            vstd::std_specs::bits::axiom_u64_trailing_zeros(hi);
            assert(x != 0 && (x as u64) == 0u64 ==> ((x >> 64u128) as u64) != 0u64) by (bit_vector);
            let tt = t as u64;
            assert(tt < 64);
            assert((hi >> tt) & 1u64 == 1u64);
            assert(hi << ((64 - tt) as u64) == 0u64);
            lemma_high_half(x, tt);
            assert forall|j: u128| j < 64 + t implies !#[trigger] bit(x, j) by {
                lemma_no_bit_below(x, (64 + t) as u128, j);
            }
        }
        64 + t
    }
}

/// Lowest bit in the low half of a word.
proof fn lemma_low_half(x: u128, t: u64)
    requires
        t < 64,
        ((x as u64) >> t) & 1u64 == 1u64,
        (x as u64) << ((64 - t) as u64) == 0u64,
    ensures
        bit(x, t as u128),
        x & (((1u128 << (t as u128)) - 1) as u128) == 0,
        (x & (x - 1) as u128) == x & !(1u128 << (t as u128)),
{
    assert((x >> (t as u128)) & 1u128 == 1u128 && x & (((1u128 << (t as u128)) - 1u128) as u128) == 0u128
        && (x & ((x - 1u128) as u128)) == x & !(1u128 << (t as u128))) by (bit_vector)
        requires
            t < 64,
            ((x as u64) >> t) & 1u64 == 1u64,
            (x as u64) << ((64 - t) as u64) == 0u64,
    ;
}

/// Lowest bit in the high half of a word whose low half is zero.
proof fn lemma_high_half(x: u128, t: u64)
    requires
        t < 64,
        (x as u64) == 0u64,
        (((x >> 64u128) as u64) >> t) & 1u64 == 1u64,
        ((x >> 64u128) as u64) << ((64 - t) as u64) == 0u64,
    ensures
        bit(x, (64 + t) as u128),
        x & (((1u128 << ((64 + t) as u128)) - 1) as u128) == 0,
        (x & (x - 1) as u128) == x & !(1u128 << ((64 + t) as u128)),
{
    assert((x >> ((64 + t) as u128)) & 1u128 == 1u128 && x & (((1u128 << ((64 + t) as u128))
        - 1u128) as u128) == 0u128 && (x & ((x - 1u128) as u128)) == x & !(1u128 << ((64 + t) as u128)))
        by (bit_vector)
        requires
            t < 64,
            (x as u64) == 0u64,
            (((x >> 64u128) as u64) >> t) & 1u64 == 1u64,
            ((x >> 64u128) as u64) << ((64 - t) as u64) == 0u64,
    ;
}

/// No bit below `b` when the low mask of `b` is clear.
proof fn lemma_no_bit_below(x: u128, b: u128, j: u128)
    requires
        b < 128,
        j < b,
        x & (((1u128 << b) - 1) as u128) == 0,
    ensures
        !bit(x, j),
{
    assert((x >> j) & 1u128 != 1u128) by (bit_vector)
        requires
            b < 128,
            j < b,
            x & (((1u128 << b) - 1u128) as u128) == 0u128,
    ;
}

/// A non-zero word has a set bit.
pub proof fn lemma_nonzero_has_bit(x: u128)
    requires
        x != 0,
    ensures
        exists|j: u128| j < 128 && #[trigger] bit(x, j),
{
    let lo = x as u64;
    if lo != 0 {
        vstd::std_specs::bits::axiom_u64_trailing_zeros(lo);
        let t = vstd::std_specs::bits::u64_trailing_zeros(lo) as u64;
        lemma_low_half(x, t);
        assert(bit(x, t as u128));
    } else {
        let hi = (x >> 64u128) as u64;
        assert(x != 0 && (x as u64) == 0u64 ==> ((x >> 64u128) as u64) != 0u64) by (bit_vector);
        vstd::std_specs::bits::axiom_u64_trailing_zeros(hi);
        let t = vstd::std_specs::bits::u64_trailing_zeros(hi) as u64;
        lemma_high_half(x, t);
        assert(bit(x, (64 + t) as u128));
    }
}

} // verus!
