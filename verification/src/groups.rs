//! Per-direction flip lists: the same captures as `compute_flip_mask`, but
//! handed out as one ascending list of square indices per direction, and
//! the proof that rebuilding the lists gives the merged mask back.

use vstd::prelude::*;
use crate::bits::bit_at;
use crate::rays::dir_capture;
use crate::board::kogge_stone_flips;

verus! {

/// The square indices of the set bits below `n`, ascending.
pub open spec fn indices_upto(bb: u64, n: nat) -> Seq<u8>
    decreases n,
{
    if n == 0 {
        Seq::empty()
    } else {
        indices_upto(bb, (n - 1) as nat) + (if bit_at(bb, (n - 1) as u64) {
            seq![(n - 1) as u8]
        } else {
            Seq::empty()
        })
    }
}

/// The square indices of a bitboard's set bits, ascending.
pub open spec fn index_seq(bb: u64) -> Seq<u8> {
    indices_upto(bb, 64)
}

/// The bitboard rebuilt from a sequence of square indices.
pub open spec fn seq_bits(s: Seq<u8>) -> u64
    decreases s.len(),
{
    if s.len() == 0 {
        0u64
    } else {
        seq_bits(s.drop_last()) | (1u64 << (s.last() as u64))
    }
}

/// Mask of the squares below `n`.
pub open spec fn low_mask(n: u64) -> u64 {
    if n >= 64 {
        0xffff_ffff_ffff_ffffu64
    } else {
        ((1u64 << n) - 1) as u64
    }
}

/// Rebuilding a bitboard from its ascending index sequence gives the
/// board back.
pub proof fn lemma_seq_bits_of_indices(bb: u64)
    ensures
        seq_bits(index_seq(bb)) == bb,
{
    lemma_indices_rebuild(bb, 64);
    assert(bb & low_mask(64) == bb) by (bit_vector);
}

proof fn lemma_indices_rebuild(bb: u64, n: u64)
    requires
        n <= 64,
    ensures
        seq_bits(indices_upto(bb, n as nat)) == bb & low_mask(n),
    decreases n,
{
    if n == 0 {
        assert(bb & low_mask(0) == 0u64) by (bit_vector);
    } else {
        let t = (n - 1) as u64;
        lemma_indices_rebuild(bb, t);
        let prefix = indices_upto(bb, t as nat);
        if bit_at(bb, t) {
            assert(indices_upto(bb, n as nat) == prefix + seq![t as u8]);
            assert((prefix + seq![t as u8]).drop_last() =~= prefix);
            assert((prefix + seq![t as u8]).last() == t as u8);
            assert(t < 64 && (bb >> t) & 1u64 == 1u64 ==> ((bb & low_mask(t)) | (1u64 << t)) == bb
                & low_mask((t + 1) as u64)) by (bit_vector);
        } else {
            assert(indices_upto(bb, n as nat) =~= prefix);
            assert(t < 64 && (bb >> t) & 1u64 != 1u64 ==> (bb & low_mask(t)) == bb & low_mask(
                (t + 1) as u64)) by (bit_vector);
        }
    }
}

/// Per-direction flip lists for a move at `pos`: entry `d` holds the
/// square indices flipped in direction `d`, in ascending order; a
/// direction that captures nothing yields an empty list. Direction order
/// matches the shift table (+8, -8, +1, -1, +9, +7, -7, -9).
pub fn gen_flip_groups(p: u64, o: u64, pos: u32) -> (r: Vec<Vec<u8>>)
    requires
        pos < 64,
    ensures
        r@.len() == 8,
        forall|d: int| 0 <= d < 8 ==> #[trigger] r@[d]@ == index_seq(
            dir_capture(p, o, pos as u64, d)),
{
    let mask: u64 = 1u64 << (pos as u64);
    let mut groups: Vec<Vec<u8>> = Vec::new();
    let mut dir: usize = 0;
    while dir < 8
        invariant
            dir <= 8,
            pos < 64,
            mask == 1u64 << (pos as u64),
            groups@.len() == dir,
            forall|d: int| 0 <= d < dir ==> #[trigger] groups@[d]@ == index_seq(
                dir_capture(p, o, pos as u64, d)),
        decreases 8 - dir,
    {
        let flips = kogge_stone_flips(mask, p, o, dir);
        let mut v: Vec<u8> = Vec::new();
        let mut i: u64 = 0;
        while i < 64
            invariant
                i <= 64,
                v@ == indices_upto(flips, i as nat),
            decreases 64 - i,
        {
            let ghost prev = v@;
            if (flips >> i) & 1u64 == 1u64 {
                v.push(i as u8);
            }
            proof {
                assert(indices_upto(flips, (i + 1) as nat) == indices_upto(flips, i as nat) + (
                if bit_at(flips, i) {
                    seq![i as u8]
                } else {
                    Seq::empty()
                }));
                if bit_at(flips, i) {
                    assert(v@ =~= prev + seq![i as u8]);
                } else {
                    assert(v@ =~= prev + Seq::<u8>::empty());
                }
            }
            i = i + 1;
        }
        groups.push(v);
        dir = dir + 1;
    }
    groups
}

} // verus!
