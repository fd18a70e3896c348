//! The bulk flood fill: legal moves computed by seeding every own stone at
//! once and propagating through opponent stones, and the proof that the
//! result agrees square by square with the ray model of `rays`.

use vstd::prelude::*;
use crate::bits::{
    bit_at,
    lemma_bit_or,
    lemma_bit_and,
    lemma_bit_blank,
    lemma_bit_zero,
    lemma_bit_disjoint,
    lemma_and_single,
    lemma_or_ident,
};
use crate::geom::{can_fwd, fwd, opp_dir, ks_step, lemma_dir_facts};
use crate::rays::{
    opp_run,
    ray_end,
    run_len,
    dir_capture,
    flip_mask_spec,
    is_legal_move,
    lemma_capture_chars,
    lemma_capture_from_run,
    lemma_flips_nonzero_iff,
    lemma_run_len_run,
};

verus! {

/// Squares reached from an own stone by exactly `j` flood steps in
/// direction `d`, every square along the way an opponent stone.
pub open spec fn cand_bb(p: u64, o: u64, d: int, j: nat) -> u64
    decreases j,
{
    if j == 0 {
        p
    } else {
        ks_step(cand_bb(p, o, d, (j - 1) as nat), d) & o
    }
}

/// Union of `cand_bb` over 1 to `j` steps.
pub open spec fn flood_upto(p: u64, o: u64, d: int, j: nat) -> u64
    decreases j,
{
    if j == 0 {
        0u64
    } else {
        flood_upto(p, o, d, (j - 1) as nat) | cand_bb(p, o, d, j)
    }
}

/// All opponent stones reachable from an own stone in direction `d`: runs
/// on an 8-wide board have at most 6 interior stones, so 6 steps suffice.
pub open spec fn flood(p: u64, o: u64, d: int) -> u64 {
    flood_upto(p, o, d, 6)
}

/// Legal-move bits contributed by direction `d`: the flood shifted one
/// step further, landing on an empty square.
pub open spec fn dir_moves(p: u64, o: u64, d: int) -> u64 {
    ks_step(flood(p, o, d), d) & !(p | o)
}

/// Union of `dir_moves` over the first `n` directions.
pub open spec fn moves_upto(p: u64, o: u64, n: int) -> u64
    decreases n,
{
    if n <= 0 {
        0u64
    } else {
        moves_upto(p, o, n - 1) | dir_moves(p, o, n - 1)
    }
}

/// The bulk legal-move bitboard: the union of all 8 directions'
/// contributions.
pub open spec fn legal_moves_spec(p: u64, o: u64) -> u64 {
    moves_upto(p, o, 8)
}

/// A backwards chain: `t` holds an opponent stone and walking `j - 1` more
/// squares against direction `d` stays on opponent stones, ending one step
/// before an own stone.
pub open spec fn src_chain(p: u64, o: u64, d: int, j: nat, t: u64) -> bool
    decreases j,
{
    if j == 0 {
        bit_at(p, t)
    } else {
        bit_at(o, t) && can_fwd(t, opp_dir(d)) && src_chain(
            p,
            o,
            d,
            (j - 1) as nat,
            fwd(t, opp_dir(d)),
        )
    }
}

/// Once the flood front is empty it stays empty.
pub proof fn lemma_cand_stable(p: u64, o: u64, d: int, j: nat, j2: nat)
    requires
        0 <= d < 8,
        cand_bb(p, o, d, j) == 0,
        j <= j2,
        j >= 1,
    ensures
        cand_bb(p, o, d, j2) == 0,
    decreases j2,
{
    if j2 > j {
        lemma_cand_stable(p, o, d, j, (j2 - 1) as nat);
        lemma_dir_facts(0u64, 0u64, 0u64, d);
        lemma_and_single(o, 0u64);
    }
}

/// Once the flood front is empty the accumulated flood no longer grows.
pub proof fn lemma_flood_stable(p: u64, o: u64, d: int, j: nat, j2: nat)
    requires
        0 <= d < 8,
        cand_bb(p, o, d, j) == 0,
        1 <= j <= j2,
    ensures
        flood_upto(p, o, d, j2) == flood_upto(p, o, d, (j - 1) as nat),
    decreases j2,
{
    if j2 == j {
        lemma_or_ident(flood_upto(p, o, d, (j - 1) as nat));
    } else {
        lemma_flood_stable(p, o, d, j, (j2 - 1) as nat);
        lemma_cand_stable(p, o, d, j, j2);
        lemma_or_ident(flood_upto(p, o, d, (j2 - 1) as nat));
    }
}

/// A bit of the `j`-step flood front is exactly a backwards chain of `j`
/// opponent stones ending on an own stone.
pub proof fn lemma_cand_bits(p: u64, o: u64, d: int, j: nat, t: u64)
    requires
        0 <= d < 8,
    ensures
        bit_at(cand_bb(p, o, d, j), t) <==> src_chain(p, o, d, j, t),
    decreases j,
{
    if j > 0 {
        let prev = cand_bb(p, o, d, (j - 1) as nat);
        lemma_bit_and(ks_step(prev, d), o, t);
        lemma_dir_facts(prev, t, t, d);
        lemma_cand_bits(p, o, d, (j - 1) as nat, fwd(t, opp_dir(d)));
    }
}

/// A bit of the flood is a backwards chain of some length 1 to `j0`.
pub proof fn lemma_flood_bits(p: u64, o: u64, d: int, j0: nat, t: u64)
    requires
        0 <= d < 8,
    ensures
        bit_at(flood_upto(p, o, d, j0), t) <==> exists|j: nat|
            1 <= j <= j0 && #[trigger] src_chain(p, o, d, j, t),
    decreases j0,
{
    if j0 == 0 {
        lemma_bit_zero(t);
    } else {
        lemma_flood_bits(p, o, d, (j0 - 1) as nat, t);
        lemma_bit_or(flood_upto(p, o, d, (j0 - 1) as nat), cand_bb(p, o, d, j0), t);
        lemma_cand_bits(p, o, d, j0, t);
        if bit_at(flood_upto(p, o, d, j0), t) {
            if bit_at(cand_bb(p, o, d, j0), t) {
                assert(1 <= j0 <= j0 && src_chain(p, o, d, j0, t));
            } else {
                let j = choose|j: nat| 1 <= j <= j0 - 1 && #[trigger] src_chain(p, o, d, j, t);
                assert(1 <= j <= j0 && src_chain(p, o, d, j, t));
            }
        }
        if exists|j: nat| 1 <= j <= j0 && #[trigger] src_chain(p, o, d, j, t) {
            let j = choose|j: nat| 1 <= j <= j0 && #[trigger] src_chain(p, o, d, j, t);
            if j <= j0 - 1 {
                assert(1 <= j <= j0 - 1 && src_chain(p, o, d, j, t));
            }
        }
    }
}

/// Seen from the landing square `s`, a backwards chain of `j` stones at
/// `s`'s neighbour against `d` is exactly a bounded opponent run of length
/// `j` leaving `s` in the opposite direction.
pub proof fn lemma_chain_to_ray(p: u64, o: u64, d: int, j: nat, s: u64)
    requires
        0 <= d < 8,
        can_fwd(s, opp_dir(d)),
        j >= 1,
    ensures
        src_chain(p, o, d, j, fwd(s, opp_dir(d))) <==> (opp_run(o, s, opp_dir(d), j) && can_fwd(
            ray_end(s, opp_dir(d), j), opp_dir(d)) && bit_at(p, fwd(
            ray_end(s, opp_dir(d), j), opp_dir(d)))),
    decreases j,
{
    let e = opp_dir(d);
    let t1 = fwd(s, e);
    lemma_dir_facts(0u64, s, s, e);
    if j == 1 {
        assert(ray_end(s, e, 1) == ray_end(t1, e, 0));
        assert(ray_end(t1, e, 0) == t1);
        assert(opp_run(o, t1, e, 0));
        assert(src_chain(p, o, d, 0, fwd(t1, e)) == bit_at(p, fwd(t1, e)));
    } else {
        if can_fwd(t1, e) {
            lemma_chain_to_ray(p, o, d, (j - 1) as nat, t1);
            assert(ray_end(s, e, j) == ray_end(t1, e, (j - 1) as nat));
        } else {
            assert(!src_chain(p, o, d, j, t1));
            assert(!opp_run(o, t1, e, (j - 1) as nat));
        }
    }
}

/// One direction's contribution to the bulk result marks `s` exactly when
/// `s` is empty and the move at `s` captures in the opposite direction.
pub proof fn lemma_dir_moves_bit(p: u64, o: u64, d: int, s: u64)
    requires
        0 <= d < 8,
        s < 64,
        p & o == 0,
    ensures
        bit_at(dir_moves(p, o, d), s) <==> (!bit_at(p, s) && !bit_at(o, s) && dir_capture(
            p, o, s, opp_dir(d)) != 0),
{
    let e = opp_dir(d);
    lemma_dir_facts(flood(p, o, d), s, s, d);
    lemma_bit_and(ks_step(flood(p, o, d), d), !(p | o), s);
    lemma_bit_blank(p, o, s);
    lemma_capture_chars(p, o, s, e);
    if bit_at(dir_moves(p, o, d), s) {
        lemma_flood_bits(p, o, d, 6, fwd(s, e));
        let j = choose|j: nat| 1 <= j <= 6 && #[trigger] src_chain(p, o, d, j, fwd(s, e));
        lemma_chain_to_ray(p, o, d, j, s);
        lemma_bit_disjoint(p, o, fwd(ray_end(s, e, j), e));
        lemma_capture_from_run(p, o, s, e, j);
    }
    if !bit_at(p, s) && !bit_at(o, s) && dir_capture(p, o, s, e) != 0 {
        let k = run_len(o, s, e);
        lemma_run_len_run(o, s, e);
        lemma_chain_to_ray(p, o, d, k, s);
        lemma_flood_bits(p, o, d, 6, fwd(s, e));
        assert(1 <= k <= 6 && src_chain(p, o, d, k, fwd(s, e)));
    }
}

/// The bulk legal-move bitboard of the first `n` directions, bit by bit.
proof fn lemma_moves_upto_bit(p: u64, o: u64, s: u64, n: int)
    requires
        s < 64,
        p & o == 0,
        n <= 8,
    ensures
        bit_at(moves_upto(p, o, n), s) <==> (!bit_at(p, s) && !bit_at(o, s) && exists|d: int|
            0 <= d < n && #[trigger] dir_capture(p, o, s, opp_dir(d)) != 0),
    decreases n,
{
    if n <= 0 {
        lemma_bit_zero(s);
    } else {
        lemma_moves_upto_bit(p, o, s, n - 1);
        lemma_bit_or(moves_upto(p, o, n - 1), dir_moves(p, o, n - 1), s);
        lemma_dir_moves_bit(p, o, n - 1, s);
        if bit_at(moves_upto(p, o, n), s) {
            if bit_at(dir_moves(p, o, n - 1), s) {
                assert(0 <= n - 1 < n && dir_capture(p, o, s, opp_dir(n - 1)) != 0);
            }
        }
        if !bit_at(p, s) && !bit_at(o, s) && exists|d: int|
            0 <= d < n && #[trigger] dir_capture(p, o, s, opp_dir(d)) != 0 {
            let d = choose|d: int| 0 <= d < n && #[trigger] dir_capture(p, o, s, opp_dir(d)) != 0;
            if d < n - 1 {
                assert(0 <= d < n - 1 && dir_capture(p, o, s, opp_dir(d)) != 0);
            }
        }
    }
}

/// The bulk flood fill agrees square by square with the ray model: on a
/// well-formed position, `s` is marked exactly when a move at `s` is legal.
pub proof fn lemma_moves_bit(p: u64, o: u64, s: u64)
    requires
        s < 64,
        p & o == 0,
    ensures
        bit_at(legal_moves_spec(p, o), s) <==> is_legal_move(p, o, s),
{
    lemma_moves_upto_bit(p, o, s, 8);
    lemma_flips_nonzero_iff(p, o, s);
    if bit_at(legal_moves_spec(p, o), s) {
        let d = choose|d: int| 0 <= d < 8 && #[trigger] dir_capture(p, o, s, opp_dir(d)) != 0;
        lemma_dir_facts(0u64, s, s, d);
        assert(0 <= opp_dir(d) < 8 && dir_capture(p, o, s, opp_dir(d)) != 0);
    }
    if is_legal_move(p, o, s) {
        let e = choose|e: int| 0 <= e < 8 && #[trigger] dir_capture(p, o, s, e) != 0;
        lemma_dir_facts(0u64, s, s, e);
        assert(0 <= opp_dir(e) < 8 && dir_capture(p, o, s, opp_dir(opp_dir(e))) != 0);
    }
}

/// Every marked square of the bulk result is an empty board square, on any
/// pair of masks.
pub proof fn lemma_moves_sub_blank(p: u64, o: u64)
    ensures
        forall|t: u64| #[trigger] bit_at(legal_moves_spec(p, o), t) ==> (t < 64 && !bit_at(p, t)
            && !bit_at(o, t)),
{
    lemma_moves_upto_blank(p, o, 8);
}

proof fn lemma_moves_upto_blank(p: u64, o: u64, n: int)
    ensures
        forall|t: u64| #[trigger] bit_at(moves_upto(p, o, n), t) ==> (t < 64 && !bit_at(p, t)
            && !bit_at(o, t)),
    decreases n,
{
    if n <= 0 {
        assert forall|t: u64| #[trigger] bit_at(moves_upto(p, o, n), t) implies (t < 64 && !bit_at(
            p, t) && !bit_at(o, t)) by {
            lemma_bit_zero(t);
        }
    } else {
        lemma_moves_upto_blank(p, o, n - 1);
        assert forall|t: u64| #[trigger] bit_at(moves_upto(p, o, n), t) implies (t < 64 && !bit_at(
            p, t) && !bit_at(o, t)) by {
            lemma_bit_or(moves_upto(p, o, n - 1), dir_moves(p, o, n - 1), t);
            if bit_at(dir_moves(p, o, n - 1), t) {
                lemma_bit_and(ks_step(flood(p, o, n - 1), n - 1), !(p | o), t);
                lemma_bit_blank(p, o, t);
            }
        }
    }
}

} // verus!
