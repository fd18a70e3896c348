//! Bit-level view of a 64-bit bitboard: the `bit_at` predicate, popcount,
//! and the bitwise lemmas the rest of the crate reasons with.

use vstd::prelude::*;

verus! {

/// True when bit `s` of the bitboard `bb` is set; squares are numbered
/// 0..64 row-major, bit 0 being row 0, column 0.
pub open spec fn bit_at(bb: u64, s: u64) -> bool {
    s < 64 && (bb >> s) & 1u64 == 1u64
}

/// Bits of a union are the union of the bits.
pub proof fn lemma_bit_or(x: u64, y: u64, s: u64)
    ensures
        bit_at(x | y, s) <==> (bit_at(x, s) || bit_at(y, s)),
{
    assert(s < 64 ==> ((((x | y) >> s) & 1u64 == 1u64) <==> (((x >> s) & 1u64 == 1u64) || ((y
        >> s) & 1u64 == 1u64)))) by (bit_vector);
}

/// Bits of an intersection are the intersection of the bits.
pub proof fn lemma_bit_and(x: u64, y: u64, s: u64)
    ensures
        bit_at(x & y, s) <==> (bit_at(x, s) && bit_at(y, s)),
{
    assert(s < 64 ==> ((((x & y) >> s) & 1u64 == 1u64) <==> (((x >> s) & 1u64 == 1u64) && ((y
        >> s) & 1u64 == 1u64)))) by (bit_vector);
}

/// A bit of the complement of a union is set exactly on the empty squares.
pub proof fn lemma_bit_blank(p: u64, o: u64, s: u64)
    ensures
        bit_at(!(p | o), s) <==> (s < 64 && !bit_at(p, s) && !bit_at(o, s)),
{
    assert(s < 64 ==> ((((!(p | o)) >> s) & 1u64 == 1u64) <==> (!((p >> s) & 1u64 == 1u64) && !((
        o >> s) & 1u64 == 1u64)))) by (bit_vector);
}

/// A single-square mask has exactly one bit.
pub proof fn lemma_bit_single(t: u64, s: u64)
    requires
        t < 64,
    ensures
        bit_at(1u64 << t, s) <==> s == t,
{
    assert((t < 64 && s < 64) ==> ((((1u64 << t) >> s) & 1u64 == 1u64) <==> s == t))
        by (bit_vector);
    assert(s >= 64 ==> !bit_at(1u64 << t, s));
}

/// The zero bitboard has no bits.
pub proof fn lemma_bit_zero(s: u64)
    ensures
        !bit_at(0u64, s),
{
    assert(s < 64 ==> (0u64 >> s) & 1u64 == 0u64) by (bit_vector);
}

/// A board with a set bit is nonzero.
pub proof fn lemma_bit_nonzero(x: u64, s: u64)
    requires
        bit_at(x, s),
    ensures
        x != 0,
{
    assert(s < 64 && (x >> s) & 1u64 == 1u64 ==> x != 0) by (bit_vector);
}

/// A nonzero board has a set bit.
pub proof fn lemma_nonzero_has_bit(x: u64)
    requires
        x != 0,
    ensures
        exists|t: u64| bit_at(x, t),
    decreases x,
{
    if x & 1u64 == 1u64 {
        assert(x & 1u64 == 1u64 ==> (x >> 0u64) & 1u64 == 1u64) by (bit_vector);
        assert(bit_at(x, 0));
    } else {
        let y = x >> 1u64;
        assert(x != 0 && x & 1u64 != 1u64 ==> ((x >> 1u64) != 0 && (x >> 1u64) < x))
            by (bit_vector);
        lemma_nonzero_has_bit(y);
        let t = choose|t: u64| bit_at(y, t);
        assert(((x >> 1u64) >> 63u64) & 1u64 == 0u64) by (bit_vector);
        assert(t < 63);
        assert(t < 63 ==> ((((x >> 1u64) >> t) & 1u64 == 1u64) ==> ((x >> ((t + 1) as u64))
            & 1u64 == 1u64)) && t + 1 < 64) by (bit_vector);
        assert(bit_at(x, (t + 1) as u64));
    }
}

/// A union is zero exactly when both parts are.
pub proof fn lemma_or_zero(x: u64, y: u64)
    ensures
        (x | y) == 0 <==> (x == 0 && y == 0),
{
    assert(((x | y) == 0) <==> (x == 0 && y == 0)) by (bit_vector);
}

/// Disjoint boards share no bit.
pub proof fn lemma_bit_disjoint(x: u64, y: u64, s: u64)
    requires
        x & y == 0,
    ensures
        !(bit_at(x, s) && bit_at(y, s)),
{
    assert((x & y == 0 && s < 64) ==> !(((x >> s) & 1u64 == 1u64) && ((y >> s) & 1u64 == 1u64)))
        by (bit_vector);
}

/// Intersecting with a single-square mask keeps that square's bit or
/// nothing; intersecting the empty board keeps nothing.
pub proof fn lemma_and_single(x: u64, t: u64)
    requires
        t < 64,
    ensures
        (1u64 << t) & x == (if bit_at(x, t) {
            1u64 << t
        } else {
            0u64
        }),
        0u64 & x == 0u64,
{
    assert(t < 64 ==> ((1u64 << t) & x == (if (x >> t) & 1u64 == 1u64 {
        1u64 << t
    } else {
        0u64
    }) && 0u64 & x == 0u64)) by (bit_vector);
}

/// A bit survives removal exactly when it is set and not removed.
pub proof fn lemma_bit_andnot(x: u64, z: u64, t: u64)
    ensures
        bit_at(x & !z, t) <==> (bit_at(x, t) && !bit_at(z, t)),
{
    assert(t < 64 ==> ((((x & !z) >> t) & 1u64 == 1u64) <==> (((x >> t) & 1u64 == 1u64) && !((z
        >> t) & 1u64 == 1u64)))) by (bit_vector);
}

/// Boards sharing no bit are disjoint as masks.
pub proof fn lemma_disjoint_from_bits(x: u64, y: u64)
    requires
        forall|t: u64| !(bit_at(x, t) && bit_at(y, t)),
    ensures
        x & y == 0,
{
    if x & y != 0 {
        lemma_nonzero_has_bit(x & y);
        let t = choose|t: u64| bit_at(x & y, t);
        lemma_bit_and(x, y, t);
    }
}

/// A square that is not set stays disjoint from its single-square mask.
pub proof fn lemma_single_not_in(x: u64, s: u64)
    requires
        s < 64,
        !bit_at(x, s),
    ensures
        x & (1u64 << s) == 0,
{
    assert(s < 64 && (x >> s) & 1u64 != 1u64 ==> x & (1u64 << s) == 0) by (bit_vector);
}

/// The empty board is the identity of union.
pub proof fn lemma_or_ident(x: u64)
    ensures
        x | 0u64 == x,
        0u64 | x == x,
{
    assert(x | 0u64 == x && 0u64 | x == x) by (bit_vector);
}

/// Number of set bits among the `n` lowest squares.
pub open spec fn pop_upto(bb: u64, n: nat) -> nat
    decreases n,
{
    if n == 0 {
        0
    } else {
        pop_upto(bb, (n - 1) as nat) + if bit_at(bb, (n - 1) as u64) {
            1nat
        } else {
            0nat
        }
    }
}

/// Number of set bits of a bitboard.
pub open spec fn pop64(bb: u64) -> nat {
    pop_upto(bb, 64)
}

/// A single-square mask holds exactly one stone.
pub proof fn lemma_pop_single(s: u64)
    requires
        s < 64,
    ensures
        pop64(1u64 << s) == 1,
{
    lemma_pop_upto_single(s, 64);
}

proof fn lemma_pop_upto_single(s: u64, n: nat)
    requires
        s < 64,
        n <= 64,
    ensures
        pop_upto(1u64 << s, n) == if n > s {
            1nat
        } else {
            0nat
        },
    decreases n,
{
    if n > 0 {
        lemma_pop_upto_single(s, (n - 1) as nat);
        lemma_bit_single(s, (n - 1) as u64);
    }
}

/// Popcount is additive over a disjoint union.
pub proof fn lemma_pop_or_disjoint(x: u64, y: u64)
    requires
        x & y == 0,
    ensures
        pop64(x | y) == pop64(x) + pop64(y),
{
    lemma_pop_upto_or(x, y, 64);
}

proof fn lemma_pop_upto_or(x: u64, y: u64, n: nat)
    requires
        x & y == 0,
    ensures
        pop_upto(x | y, n) == pop_upto(x, n) + pop_upto(y, n),
    decreases n,
{
    if n > 0 {
        lemma_pop_upto_or(x, y, (n - 1) as nat);
        let t = (n - 1) as u64;
        lemma_bit_or(x, y, t);
        lemma_bit_disjoint(x, y, t);
    }
}

/// Removing a subset of the set bits subtracts its popcount.
pub proof fn lemma_pop_remove(o: u64, z: u64)
    requires
        forall|t: u64| bit_at(z, t) ==> bit_at(o, t),
    ensures
        pop64(o & !z) == pop64(o) - pop64(z),
        pop64(z) <= pop64(o),
{
    lemma_pop_upto_remove(o, z, 64);
}

proof fn lemma_pop_upto_remove(o: u64, z: u64, n: nat)
    requires
        forall|t: u64| bit_at(z, t) ==> bit_at(o, t),
    ensures
        pop_upto(o & !z, n) + pop_upto(z, n) == pop_upto(o, n),
    decreases n,
{
    if n > 0 {
        lemma_pop_upto_remove(o, z, (n - 1) as nat);
        let t = (n - 1) as u64;
        assert(t < 64 ==> ((((o & !z) >> t) & 1u64 == 1u64) <==> (((o >> t) & 1u64 == 1u64)
            && !((z >> t) & 1u64 == 1u64)))) by (bit_vector);
        assert(bit_at(z, t) ==> bit_at(o, t));
    }
}

} // verus!
