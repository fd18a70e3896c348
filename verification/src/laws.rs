//! The laws the operations obey, stated over the spec-level model and
//! proved once and for all: bulk/per-square equivalence, flip-group
//! consistency, stone conservation, absence of wraparound, and the empty-
//! and full-board boundary cases.

use vstd::prelude::*;
use crate::bits::{
    bit_at,
    pop64,
    lemma_bit_or,
    lemma_bit_andnot,
    lemma_bit_single,
    lemma_bit_zero,
    lemma_bit_disjoint,
    lemma_disjoint_from_bits,
    lemma_single_not_in,
    lemma_pop_single,
    lemma_pop_or_disjoint,
    lemma_pop_remove,
    lemma_bit_nonzero,
    lemma_nonzero_has_bit,
};
use crate::geom::{fwd, col_of, dcol};
use crate::rays::{
    run_len,
    ray_bits,
    dir_capture,
    flips_upto,
    flip_mask_spec,
    is_legal_move,
    lemma_run_len_run,
    lemma_capture_chars,
    lemma_ray_bits_bit,
    lemma_flip_subset_opp,
    lemma_flips_nonzero_iff,
};
use crate::flood::{legal_moves_spec, lemma_moves_bit, lemma_moves_sub_blank};
use crate::groups::{index_seq, seq_bits, lemma_seq_bits_of_indices};

verus! {

/// Equivalence: on disjoint masks, the bulk legal-move board marks a
/// square exactly when that square is empty and the per-square flip mask
/// there is nonzero — for every square, so the bulk result is the union
/// over all 64 squares of the per-square tests.
pub proof fn lemma_legal_moves_equivalence(p: u64, o: u64)
    requires
        p & o == 0,
    ensures
        forall|s: u64| s < 64 ==> (bit_at(legal_moves_spec(p, o), s) <==> (!bit_at(p, s)
            && !bit_at(o, s) && flip_mask_spec(p, o, s) != 0)),
{
    assert forall|s: u64| s < 64 implies (bit_at(legal_moves_spec(p, o), s) <==> (!bit_at(p, s)
        && !bit_at(o, s) && flip_mask_spec(p, o, s) != 0)) by {
        lemma_moves_bit(p, o, s);
    };
}

/// Union of the rebuilt per-direction flip lists of the first `n`
/// directions.
pub open spec fn groups_mask(p: u64, o: u64, s: u64, n: int) -> u64
    decreases n,
{
    if n <= 0 {
        0u64
    } else {
        groups_mask(p, o, s, n - 1) | seq_bits(index_seq(dir_capture(p, o, s, n - 1)))
    }
}

/// Flip consistency: rebuilding each direction's index list into a
/// bitboard and taking the union over the 8 directions yields exactly the
/// merged flip mask.
pub proof fn lemma_flip_groups_consistent(p: u64, o: u64, s: u64)
    ensures
        groups_mask(p, o, s, 8) == flip_mask_spec(p, o, s),
{
    lemma_groups_mask_upto(p, o, s, 8);
}

proof fn lemma_groups_mask_upto(p: u64, o: u64, s: u64, n: int)
    ensures
        groups_mask(p, o, s, n) == flips_upto(p, o, s, n),
    decreases n,
{
    if n > 0 {
        lemma_groups_mask_upto(p, o, s, n - 1);
        lemma_seq_bits_of_indices(dir_capture(p, o, s, n - 1));
    }
}

/// Move conservation: on a well-formed position, playing a capturing move
/// at an empty square gives the mover one stone plus the flips, takes
/// exactly the flips from the opponent, and keeps the two masks disjoint.
pub proof fn lemma_move_conservation(p: u64, o: u64, s: u64)
    requires
        p & o == 0,
        s < 64,
        !bit_at(p, s),
        !bit_at(o, s),
    ensures
        pop64(p | (1u64 << s) | flip_mask_spec(p, o, s)) == pop64(p) + 1 + pop64(
            flip_mask_spec(p, o, s)),
        pop64(o & !((1u64 << s) | flip_mask_spec(p, o, s))) == pop64(o) - pop64(
            flip_mask_spec(p, o, s)),
        pop64(flip_mask_spec(p, o, s)) <= pop64(o),
        (p | (1u64 << s) | flip_mask_spec(p, o, s)) & (o & !((1u64 << s) | flip_mask_spec(
            p, o, s))) == 0,
{
    let f = flip_mask_spec(p, o, s);
    let m = 1u64 << s;
    lemma_flip_subset_opp(p, o, s);
    lemma_single_not_in(p, s);
    assert forall|t: u64| !(bit_at(p | m, t) && bit_at(f, t)) by {
        lemma_bit_or(p, m, t);
        if bit_at(f, t) {
            lemma_bit_disjoint(p, o, t);
            lemma_bit_single(s, t);
        }
    };
    lemma_disjoint_from_bits(p | m, f);
    lemma_pop_or_disjoint(p | m, f);
    lemma_pop_or_disjoint(p, m);
    lemma_pop_single(s);
    assert(s < 64 && (o >> s) & 1u64 != 1u64 ==> o & !((1u64 << s) | f) == o & !f)
        by (bit_vector);
    lemma_pop_remove(o, f);
    assert forall|t: u64| !(bit_at(p | m | f, t) && bit_at(o & !(m | f), t)) by {
        lemma_bit_or(p | m, f, t);
        lemma_bit_or(p, m, t);
        lemma_bit_andnot(o, m | f, t);
        lemma_bit_or(m, f, t);
        lemma_bit_disjoint(p, o, t);
        lemma_bit_single(s, t);
    };
    lemma_disjoint_from_bits(p | m | f, o & !(m | f));
}

/// No wraparound: a move on the east edge file (column 7) never flips a
/// stone on the west edge file (column 0), and the other way round — in
/// particular not on the same or an adjacent row, where a shift without
/// its edge mask would land.
pub proof fn lemma_no_wraparound(p: u64, o: u64, s: u64)
    requires
        s < 64,
    ensures
        col_of(s) == 7 ==> forall|t: u64| #[trigger] bit_at(flip_mask_spec(p, o, s), t)
            ==> col_of(t) != 0,
        col_of(s) == 0 ==> forall|t: u64| #[trigger] bit_at(flip_mask_spec(p, o, s), t)
            ==> col_of(t) != 7,
{
    lemma_flips_upto_cols(p, o, s, 8);
}

proof fn lemma_flips_upto_cols(p: u64, o: u64, s: u64, n: int)
    requires
        s < 64,
        n <= 8,
    ensures
        forall|t: u64| #[trigger] bit_at(flips_upto(p, o, s, n), t) ==> ((col_of(s) == 7
            ==> col_of(t) != 0) && (col_of(s) == 0 ==> col_of(t) != 7)),
    decreases n,
{
    if n <= 0 {
        assert forall|t: u64| #[trigger] bit_at(flips_upto(p, o, s, n), t) implies ((col_of(s)
            == 7 ==> col_of(t) != 0) && (col_of(s) == 0 ==> col_of(t) != 7)) by {
            lemma_bit_zero(t);
        };
    } else {
        lemma_flips_upto_cols(p, o, s, n - 1);
        let d = n - 1;
        let k = run_len(o, s, d);
        lemma_capture_chars(p, o, s, d);
        if dir_capture(p, o, s, d) != 0 {
            lemma_run_len_run(o, s, d);
            lemma_ray_bits_bit(o, s, d, k);
        }
        assert forall|t: u64| #[trigger] bit_at(flips_upto(p, o, s, n), t) implies ((col_of(s)
            == 7 ==> col_of(t) != 0) && (col_of(s) == 0 ==> col_of(t) != 7)) by {
            lemma_bit_or(flips_upto(p, o, s, n - 1), dir_capture(p, o, s, d), t);
            if bit_at(dir_capture(p, o, s, d), t) {
                lemma_bit_nonzero(dir_capture(p, o, s, d), t);
                assert(bit_at(ray_bits(s, d, k), t));
                assert(t < 64 ==> t % 8 < 8) by (bit_vector);
                assert(s < 64 ==> s % 8 < 8) by (bit_vector);
            }
        };
    }
}

/// Symmetry boundary: the empty board admits no legal move at all.
pub proof fn lemma_empty_board()
    ensures
        legal_moves_spec(0u64, 0u64) == 0,
        forall|s: u64| !is_legal_move(0u64, 0u64, s),
{
    assert(0u64 & 0u64 == 0u64 && 0u64 >> 1u64 == 0u64) by (bit_vector);
    assert forall|s: u64| !is_legal_move(0u64, 0u64, s) by {
        if s < 64 {
            lemma_flips_nonzero_iff(0u64, 0u64, s);
            assert forall|d: int| 0 <= d < 8 implies #[trigger] dir_capture(0u64, 0u64, s, d)
                == 0 by {
                lemma_bit_zero(fwd(s, d));
                assert(run_len(0u64, s, d) == 0);
            };
        }
    };
    if legal_moves_spec(0u64, 0u64) != 0 {
        lemma_nonzero_has_bit(legal_moves_spec(0u64, 0u64));
        let t = choose|t: u64| bit_at(legal_moves_spec(0u64, 0u64), t);
        lemma_moves_bit(0u64, 0u64, t);
    }
}

/// Full-board terminal: a completely occupied board, however the stones
/// are divided, admits no legal move.
pub proof fn lemma_full_board(p: u64, o: u64)
    requires
        p | o == 0xffff_ffff_ffff_ffffu64,
    ensures
        legal_moves_spec(p, o) == 0,
{
    lemma_moves_sub_blank(p, o);
    if legal_moves_spec(p, o) != 0 {
        lemma_nonzero_has_bit(legal_moves_spec(p, o));
        let t = choose|t: u64| bit_at(legal_moves_spec(p, o), t);
        assert((p | o == 0xffff_ffff_ffff_ffffu64 && t < 64) ==> (((p >> t) & 1u64 == 1u64) || ((
        o >> t) & 1u64 == 1u64))) by (bit_vector);
    }
}

} // verus!
