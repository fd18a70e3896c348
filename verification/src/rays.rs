//! The square-by-square ray model: a move at `s` captures, in direction
//! `d`, the maximal run of opponent stones after `s` exactly when an own
//! stone bounds that run at the far end. The executable flood fills are
//! proved against this model.

use vstd::prelude::*;
use crate::bits::{
    bit_at,
    lemma_bit_or,
    lemma_bit_single,
    lemma_bit_zero,
    lemma_bit_nonzero,
    lemma_or_zero,
};
use crate::geom::{can_fwd, fwd, drow, dcol, row_of, col_of, lemma_dir_facts};

verus! {

/// The `k` squares after `s` in direction `d` all lie on the board and all
/// hold opponent stones.
pub open spec fn opp_run(o: u64, s: u64, d: int, k: nat) -> bool
    decreases k,
{
    k == 0 || (can_fwd(s, d) && bit_at(o, fwd(s, d)) && opp_run(o, fwd(s, d), d, (k - 1) as nat))
}

/// The square `k` steps after `s` in direction `d`.
pub open spec fn ray_end(s: u64, d: int, k: nat) -> u64
    decreases k,
{
    if k == 0 {
        s
    } else {
        ray_end(fwd(s, d), d, (k - 1) as nat)
    }
}

/// Bitboard holding the squares 1 to `k` steps after `s` in direction `d`.
pub open spec fn ray_bits(s: u64, d: int, k: nat) -> u64
    decreases k,
{
    if k == 0 {
        0u64
    } else {
        (1u64 << fwd(s, d)) | ray_bits(fwd(s, d), d, (k - 1) as nat)
    }
}

/// Length of the maximal run of opponent stones directly after `s` in
/// direction `d`, capped by `fuel`.
pub open spec fn run_len_fueled(o: u64, s: u64, d: int, fuel: nat) -> nat
    decreases fuel,
{
    if fuel == 0 {
        0
    } else if can_fwd(s, d) && bit_at(o, fwd(s, d)) {
        1 + run_len_fueled(o, fwd(s, d), d, (fuel - 1) as nat)
    } else {
        0
    }
}

/// Length of the maximal run of opponent stones directly after `s`. A run
/// on an 8-wide board holds at most 7 stones, so fuel 7 is exact.
pub open spec fn run_len(o: u64, s: u64, d: int) -> nat {
    run_len_fueled(o, s, d, 7)
}

/// Stones captured in direction `d` by a move at `s`: the maximal opponent
/// run after `s`, if an own stone bounds it at the far end, else nothing.
pub open spec fn dir_capture(p: u64, o: u64, s: u64, d: int) -> u64 {
    let k = run_len(o, s, d);
    if 1 <= k && can_fwd(ray_end(s, d, k), d) && bit_at(p, fwd(ray_end(s, d, k), d)) {
        ray_bits(s, d, k)
    } else {
        0u64
    }
}

/// Union of the captures of the first `n` directions.
pub open spec fn flips_upto(p: u64, o: u64, s: u64, n: int) -> u64
    decreases n,
{
    if n <= 0 {
        0u64
    } else {
        flips_upto(p, o, s, n - 1) | dir_capture(p, o, s, n - 1)
    }
}

/// All stones captured by a move at `s`: the union over the 8 directions.
pub open spec fn flip_mask_spec(p: u64, o: u64, s: u64) -> u64 {
    flips_upto(p, o, s, 8)
}

/// A move at `s` is legal when `s` is an empty board square and capturing
/// something: this is the square-by-square meaning of a legal move.
pub open spec fn is_legal_move(p: u64, o: u64, s: u64) -> bool {
    s < 64 && !bit_at(p, s) && !bit_at(o, s) && flip_mask_spec(p, o, s) != 0
}

/// A fueled run is no longer than its fuel.
pub proof fn lemma_run_len_bound(o: u64, s: u64, d: int, fuel: nat)
    ensures
        run_len_fueled(o, s, d, fuel) <= fuel,
    decreases fuel,
{
    if fuel > 0 && can_fwd(s, d) && bit_at(o, fwd(s, d)) {
        lemma_run_len_bound(o, fwd(s, d), d, (fuel - 1) as nat);
    }
}

/// Within the fuel, a run of length `k` exists exactly when the maximal run
/// is at least `k` long.
pub proof fn lemma_opp_run_iff(o: u64, s: u64, d: int, k: nat, fuel: nat)
    requires
        k <= fuel,
    ensures
        opp_run(o, s, d, k) <==> k <= run_len_fueled(o, s, d, fuel),
    decreases k,
{
    if k > 0 {
        if can_fwd(s, d) && bit_at(o, fwd(s, d)) {
            lemma_opp_run_iff(o, fwd(s, d), d, (k - 1) as nat, (fuel - 1) as nat);
        }
    }
}

/// The maximal run is itself a run of opponent stones.
pub proof fn lemma_run_len_run(o: u64, s: u64, d: int)
    ensures
        opp_run(o, s, d, run_len(o, s, d)),
{
    lemma_run_len_bound(o, s, d, 7);
    lemma_opp_run_iff(o, s, d, run_len(o, s, d), 7);
}

/// The square `k` steps out is one step past the square `k - 1` steps out.
pub proof fn lemma_ray_end_snoc(s: u64, d: int, k: nat)
    requires
        k >= 1,
    ensures
        ray_end(s, d, k) == fwd(ray_end(s, d, (k - 1) as nat), d),
    decreases k,
{
    if k == 1 {
        assert(ray_end(fwd(s, d), d, 0) == fwd(s, d));
        assert(ray_end(s, d, 0) == s);
    } else {
        lemma_ray_end_snoc(fwd(s, d), d, (k - 1) as nat);
        assert(ray_end(s, d, k) == ray_end(fwd(s, d), d, (k - 1) as nat));
        assert(ray_end(s, d, (k - 1) as nat) == ray_end(fwd(s, d), d, (k - 2) as nat));
    }
}

/// Extending a ray by one step adds the single bit of the next square.
pub proof fn lemma_ray_bits_snoc(s: u64, d: int, k: nat)
    requires
        k >= 1,
    ensures
        ray_bits(s, d, k) == ray_bits(s, d, (k - 1) as nat) | (1u64 << fwd(
            ray_end(s, d, (k - 1) as nat), d)),
    decreases k,
{
    let e = fwd(ray_end(s, d, (k - 1) as nat), d);
    if k == 1 {
        assert(ray_bits(fwd(s, d), d, 0) == 0u64);
        assert(ray_bits(s, d, 0) == 0u64);
        assert(ray_end(s, d, 0) == s);
        assert((1u64 << e) | 0u64 == 0u64 | (1u64 << e)) by (bit_vector);
    } else {
        lemma_ray_bits_snoc(fwd(s, d), d, (k - 1) as nat);
        lemma_ray_end_snoc(s, d, (k - 1) as nat);
        assert(ray_bits(s, d, k) == (1u64 << fwd(s, d)) | ray_bits(fwd(s, d), d, (k - 1) as nat));
        assert(ray_bits(s, d, (k - 1) as nat) == (1u64 << fwd(s, d)) | ray_bits(
            fwd(s, d), d, (k - 2) as nat));
        assert(ray_end(s, d, (k - 1) as nat) == ray_end(fwd(s, d), d, (k - 2) as nat));
        let a = 1u64 << fwd(s, d);
        let b = ray_bits(fwd(s, d), d, (k - 2) as nat);
        assert(a | (b | (1u64 << e)) == (a | b) | (1u64 << e)) by (bit_vector);
    }
}

/// A run extends by one step exactly when one more square exists and holds
/// an opponent stone.
pub proof fn lemma_opp_run_snoc(o: u64, s: u64, d: int, k: nat)
    ensures
        opp_run(o, s, d, k + 1) <==> (opp_run(o, s, d, k) && can_fwd(ray_end(s, d, k), d)
            && bit_at(o, fwd(ray_end(s, d, k), d))),
    decreases k,
{
    if k == 0 {
        assert(ray_end(s, d, 0) == s);
        assert(opp_run(o, fwd(s, d), d, 0));
    } else {
        if can_fwd(s, d) && bit_at(o, fwd(s, d)) {
            lemma_opp_run_snoc(o, fwd(s, d), d, (k - 1) as nat);
            assert(ray_end(s, d, k) == ray_end(fwd(s, d), d, (k - 1) as nat));
            assert(opp_run(o, s, d, k + 1) == opp_run(o, fwd(s, d), d, k));
        } else {
            assert(!opp_run(o, s, d, k + 1));
            assert(!opp_run(o, s, d, k));
        }
    }
}

/// A run of length `k` followed by a stopped step pins the maximal run
/// length to exactly `k`.
pub proof fn lemma_run_len_exact(o: u64, s: u64, d: int, k: nat, fuel: nat)
    requires
        k <= fuel,
        opp_run(o, s, d, k),
        !(can_fwd(ray_end(s, d, k), d) && bit_at(o, fwd(ray_end(s, d, k), d))),
    ensures
        run_len_fueled(o, s, d, fuel) == k,
    decreases k,
{
    if k == 0 {
    } else {
        lemma_run_len_exact(o, fwd(s, d), d, (k - 1) as nat, (fuel - 1) as nat);
    }
}

/// Every square along a run stays on the board, and its row and column are
/// the origin's displaced `k` times by the direction's offsets.
pub proof fn lemma_ray_coords(o: u64, s: u64, d: int, k: nat)
    requires
        0 <= d < 8,
        s < 64,
        opp_run(o, s, d, k),
    ensures
        ray_end(s, d, k) < 64,
        row_of(ray_end(s, d, k)) == row_of(s) + k * drow(d),
        col_of(ray_end(s, d, k)) == col_of(s) + k * dcol(d),
    decreases k,
{
    if k == 0 {
        let dr = drow(d);
        let dc = dcol(d);
        assert(k == 0 ==> k * dr == 0 && k * dc == 0) by (nonlinear_arith);
    } else {
        lemma_dir_facts(0u64, s, s, d);
        lemma_ray_coords(o, fwd(s, d), d, (k - 1) as nat);
        let dr = drow(d);
        let dc = dcol(d);
        assert(dr + (k - 1) * dr == k * dr) by (nonlinear_arith);
        assert(dc + (k - 1) * dc == k * dc) by (nonlinear_arith);
    }
}

/// An opponent run of length 7 fills the board edge to edge, so there is no
/// eighth step: the bounding check past it always fails.
pub proof fn lemma_no_eight(o: u64, s: u64, d: int)
    requires
        0 <= d < 8,
        s < 64,
        opp_run(o, s, d, 7),
    ensures
        !can_fwd(ray_end(s, d, 7), d),
{
    lemma_ray_coords(o, s, d, 7);
    assert(s < 64 ==> (s / 8 < 8 && s % 8 < 8)) by (bit_vector);
    let e = ray_end(s, d, 7);
    assert(e < 64 ==> (e / 8 < 8 && e % 8 < 8)) by (bit_vector);
}

/// Every bit of a run's ray is an opponent stone, and its column lies
/// strictly between the origin's column and the column `k + 1` offsets out.
pub proof fn lemma_ray_bits_bit(o: u64, s: u64, d: int, k: nat)
    requires
        0 <= d < 8,
        s < 64,
        opp_run(o, s, d, k),
        k <= 7,
    ensures
        forall|t: u64| #[trigger] bit_at(ray_bits(s, d, k), t) ==> (bit_at(o, t) && (dcol(d) == 0
            ==> col_of(t) == col_of(s)) && (dcol(d) == 1 ==> col_of(s) < col_of(t) <= col_of(s)
            + k) && (dcol(d) == -1 ==> col_of(s) - k <= col_of(t) < col_of(s))),
    decreases k,
{
    if k == 0 {
        assert forall|t: u64| #[trigger] bit_at(ray_bits(s, d, 0), t) implies false by {
            lemma_bit_zero(t);
        }
    } else {
        lemma_dir_facts(0u64, s, s, d);
        let f = fwd(s, d);
        lemma_ray_bits_bit(o, f, d, (k - 1) as nat);
        assert forall|t: u64| #[trigger] bit_at(ray_bits(s, d, k), t) implies (bit_at(o, t) && (
        dcol(d) == 0 ==> col_of(t) == col_of(s)) && (dcol(d) == 1 ==> col_of(s) < col_of(t)
            <= col_of(s) + k) && (dcol(d) == -1 ==> col_of(s) - k <= col_of(t) < col_of(
            s))) by {
            lemma_bit_or(1u64 << f, ray_bits(f, d, (k - 1) as nat), t);
            if bit_at(1u64 << f, t) {
                lemma_bit_single(f, t);
            }
        }
    }
}

/// A nonempty run's ray is a nonzero bitboard.
pub proof fn lemma_ray_bits_nonzero(o: u64, s: u64, d: int, k: nat)
    requires
        0 <= d < 8,
        s < 64,
        opp_run(o, s, d, k),
        k >= 1,
    ensures
        ray_bits(s, d, k) != 0,
{
    lemma_dir_facts(0u64, s, s, d);
    let f = fwd(s, d);
    lemma_bit_single(f, f);
    lemma_bit_or(1u64 << f, ray_bits(f, d, (k - 1) as nat), f);
    lemma_bit_nonzero(ray_bits(s, d, k), f);
}

/// What a nonzero capture means, and that captures sit on opponent stones.
pub proof fn lemma_capture_chars(p: u64, o: u64, s: u64, d: int)
    requires
        0 <= d < 8,
        s < 64,
    ensures
        dir_capture(p, o, s, d) != 0 <==> (1 <= run_len(o, s, d) && can_fwd(
            ray_end(s, d, run_len(o, s, d)), d) && bit_at(p, fwd(
            ray_end(s, d, run_len(o, s, d)), d))),
        dir_capture(p, o, s, d) != 0 ==> (run_len(o, s, d) <= 6 && dir_capture(p, o, s, d)
            == ray_bits(s, d, run_len(o, s, d))),
        forall|t: u64| #[trigger] bit_at(dir_capture(p, o, s, d), t) ==> bit_at(o, t),
{
    let k = run_len(o, s, d);
    lemma_run_len_bound(o, s, d, 7);
    lemma_run_len_run(o, s, d);
    if 1 <= k && can_fwd(ray_end(s, d, k), d) && bit_at(p, fwd(ray_end(s, d, k), d)) {
        if k == 7 {
            lemma_no_eight(o, s, d);
        }
        lemma_ray_bits_nonzero(o, s, d, k);
        lemma_ray_bits_bit(o, s, d, k);
    } else {
        assert forall|t: u64| #[trigger] bit_at(dir_capture(p, o, s, d), t) implies bit_at(
            o, t) by {
            lemma_bit_zero(t);
        }
    }
}

/// A bounded run of length 1 to 6, stopped right past its end, is captured
/// whole: the capture in that direction is exactly the run's ray.
pub proof fn lemma_capture_from_run(p: u64, o: u64, s: u64, d: int, j: nat)
    requires
        0 <= d < 8,
        s < 64,
        1 <= j <= 6,
        opp_run(o, s, d, j),
        can_fwd(ray_end(s, d, j), d),
        bit_at(p, fwd(ray_end(s, d, j), d)),
        !bit_at(o, fwd(ray_end(s, d, j), d)),
    ensures
        run_len(o, s, d) == j,
        dir_capture(p, o, s, d) == ray_bits(s, d, j),
        dir_capture(p, o, s, d) != 0,
{
    lemma_run_len_exact(o, s, d, j, 7);
    lemma_ray_bits_nonzero(o, s, d, j);
}

/// The full flip mask is nonzero exactly when some direction captures.
pub proof fn lemma_flips_nonzero_iff(p: u64, o: u64, s: u64)
    ensures
        flip_mask_spec(p, o, s) != 0 <==> exists|d: int|
            0 <= d < 8 && #[trigger] dir_capture(p, o, s, d) != 0,
{
    lemma_flips_upto_nonzero(p, o, s, 8);
}

proof fn lemma_flips_upto_nonzero(p: u64, o: u64, s: u64, n: int)
    requires
        n <= 8,
    ensures
        flips_upto(p, o, s, n) != 0 <==> exists|d: int|
            0 <= d < n && #[trigger] dir_capture(p, o, s, d) != 0,
    decreases n,
{
    if n <= 0 {
    } else {
        lemma_flips_upto_nonzero(p, o, s, n - 1);
        lemma_or_zero(flips_upto(p, o, s, n - 1), dir_capture(p, o, s, n - 1));
        if flips_upto(p, o, s, n) != 0 {
            if dir_capture(p, o, s, n - 1) != 0 {
                assert(0 <= n - 1 < n && dir_capture(p, o, s, n - 1) != 0);
            }
        }
    }
}

/// Every flipped stone is an opponent stone.
pub proof fn lemma_flip_subset_opp(p: u64, o: u64, s: u64)
    requires
        s < 64,
    ensures
        forall|t: u64| #[trigger] bit_at(flip_mask_spec(p, o, s), t) ==> bit_at(o, t),
{
    lemma_flips_upto_subset(p, o, s, 8);
}

proof fn lemma_flips_upto_subset(p: u64, o: u64, s: u64, n: int)
    requires
        s < 64,
        n <= 8,
    ensures
        forall|t: u64| #[trigger] bit_at(flips_upto(p, o, s, n), t) ==> bit_at(o, t),
    decreases n,
{
    if n <= 0 {
        assert forall|t: u64| #[trigger] bit_at(flips_upto(p, o, s, n), t) implies bit_at(
            o, t) by {
            lemma_bit_zero(t);
        }
    } else {
        lemma_flips_upto_subset(p, o, s, n - 1);
        lemma_capture_chars(p, o, s, n - 1);
        assert forall|t: u64| #[trigger] bit_at(flips_upto(p, o, s, n), t) implies bit_at(
            o, t) by {
            lemma_bit_or(flips_upto(p, o, s, n - 1), dir_capture(p, o, s, n - 1), t);
        }
    }
}

} // verus!
