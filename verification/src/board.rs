//! The executable board operations: bulk legal-move generation, per-square
//! flip computation, move application, stone counting, and move existence.
//! Every operation is a pure function of the two occupancy masks (and a
//! square index), and its contract ties the result to the ray model.

use vstd::prelude::*;
use crate::bits::{
    bit_at,
    pop64,
    pop_upto,
    lemma_and_single,
    lemma_bit_single,
    lemma_bit_nonzero,
    lemma_nonzero_has_bit,
};
use crate::geom::{can_fwd, fwd, ks_step, NOT_COL_0, NOT_COL_7, lemma_dir_facts};
use crate::rays::{
    opp_run,
    ray_end,
    ray_bits,
    run_len,
    dir_capture,
    flips_upto,
    flip_mask_spec,
    is_legal_move,
    lemma_run_len_bound,
    lemma_opp_run_iff,
    lemma_run_len_run,
    lemma_opp_run_snoc,
    lemma_ray_end_snoc,
    lemma_ray_bits_snoc,
    lemma_ray_coords,
    lemma_no_eight,
};
use crate::flood::{
    cand_bb,
    flood_upto,
    flood,
    dir_moves,
    moves_upto,
    legal_moves_spec,
    lemma_moves_bit,
    lemma_flood_stable,
};

verus! {

/// One executable flood-fill step: shift one square in direction `d`, the
/// direction's edge mask removing the bits that would wrap across a file.
fn shift_dir(x: u64, d: usize) -> (r: u64)
    requires
        d < 8,
    ensures
        r == ks_step(x, d as int),
{
    if d == 0 {
        x << 8u64
    } else if d == 1 {
        x >> 8u64
    } else if d == 2 {
        (x << 1u64) & NOT_COL_0
    } else if d == 3 {
        (x >> 1u64) & NOT_COL_7
    } else if d == 4 {
        (x << 9u64) & NOT_COL_0
    } else if d == 5 {
        (x << 7u64) & NOT_COL_7
    } else if d == 6 {
        (x >> 7u64) & NOT_COL_0
    } else {
        (x >> 9u64) & NOT_COL_7
    }
}

/// Stones flipped in one direction by a move at the square of the
/// single-bit mask `mask` (Kogge-Stone bounded propagation): walk the run
/// of opponent stones adjacent to the origin for at most 6 steps — the
/// longest interior run an 8-wide board admits — then keep the run exactly
/// when the square one step past it holds an own stone.
pub fn kogge_stone_flips(mask: u64, p: u64, o: u64, idx: usize) -> (r: u64)
    requires
        idx < 8,
    ensures
        forall|s: u64| s < 64 && mask == 1u64 << s ==> r == dir_capture(p, o, s, idx as int),
{
    let ghost d = idx as int;
    let ghost has_origin = exists|s: u64| s < 64 && mask == 1u64 << s;
    let ghost s0: u64 = if has_origin {
        choose|s: u64| s < 64 && mask == 1u64 << s
    } else {
        0u64
    };
    let ghost k0 = run_len(o, s0, d);
    proof {
        lemma_run_len_bound(o, s0, d, 7);
    }
    let mut flips: u64 = 0;
    let mut candidate: u64 = shift_dir(mask, idx) & o;
    proof {
        if has_origin {
            lemma_dir_facts(0u64, s0, s0, d);
            if can_fwd(s0, d) {
                lemma_and_single(o, fwd(s0, d));
            } else {
                lemma_and_single(o, 0u64);
            }
            lemma_opp_run_snoc(o, s0, d, 0);
            assert(ray_end(s0, d, 0) == s0);
            assert(opp_run(o, s0, d, 0));
            lemma_ray_end_snoc(s0, d, 1);
            lemma_opp_run_iff(o, s0, d, 1, 7);
            assert(flips == ray_bits(s0, d, 0));
        }
    }
    let mut it: u64 = 0;
    while it < 6
        invariant_except_break
            it <= 6,
            idx < 8,
            d == idx as int,
            k0 == run_len(o, s0, d),
            k0 <= 7,
            has_origin ==> s0 < 64,
            has_origin ==> flips == ray_bits(s0, d, it as nat),
            has_origin ==> candidate == (if opp_run(o, s0, d, (it + 1) as nat) {
                1u64 << ray_end(s0, d, (it + 1) as nat)
            } else {
                0u64
            }),
            has_origin ==> it as nat <= k0,
            has_origin ==> (opp_run(o, s0, d, (it + 1) as nat) <==> it + 1 <= k0),
            has_origin && opp_run(o, s0, d, (it + 1) as nat) ==> ray_end(s0, d, (it + 1) as nat)
                < 64,
            it > 0 ==> candidate != 0,
        ensures
            idx < 8,
            d == idx as int,
            k0 == run_len(o, s0, d),
            has_origin ==> s0 < 64,
            has_origin ==> ((k0 == 0 && flips == 0 && candidate == 0) || (1 <= k0 <= 6 && flips
                == ray_bits(s0, d, k0) && candidate == 1u64 << ray_end(s0, d, k0) && ray_end(
                s0, d, k0) < 64) || (k0 == 7 && candidate == 1u64 << ray_end(s0, d, 7) && ray_end(
                s0, d, 7) < 64)),
        decreases 6 - it,
    {
        if candidate == 0 {
            proof {
                if has_origin {
                    if opp_run(o, s0, d, (it + 1) as nat) {
                        let e1 = ray_end(s0, d, (it + 1) as nat);
                        lemma_bit_single(e1, e1);
                        lemma_bit_nonzero(1u64 << e1, e1);
                    }
                    assert(k0 == 0);
                    assert(ray_bits(s0, d, 0) == 0u64);
                }
            }
            break;
        }
        proof {
            if has_origin {
                assert(opp_run(o, s0, d, (it + 1) as nat));
                lemma_ray_bits_snoc(s0, d, (it + 1) as nat);
                lemma_ray_end_snoc(s0, d, (it + 1) as nat);
            }
        }
        flips = flips | candidate;
        let next = shift_dir(candidate, idx) & o;
        proof {
            if has_origin {
                let e1 = ray_end(s0, d, (it + 1) as nat);
                lemma_ray_coords(o, s0, d, (it + 1) as nat);
                lemma_dir_facts(0u64, e1, e1, d);
                if can_fwd(e1, d) {
                    lemma_and_single(o, fwd(e1, d));
                } else {
                    lemma_and_single(o, 0u64);
                }
                lemma_opp_run_snoc(o, s0, d, (it + 1) as nat);
                lemma_ray_end_snoc(s0, d, (it + 2) as nat);
                lemma_opp_run_iff(o, s0, d, (it + 2) as nat, 7);
                assert(next == (if opp_run(o, s0, d, (it + 2) as nat) {
                    1u64 << ray_end(s0, d, (it + 2) as nat)
                } else {
                    0u64
                }));
                if opp_run(o, s0, d, (it + 2) as nat) {
                    assert(ray_end(s0, d, (it + 2) as nat) == fwd(e1, d));
                    lemma_bit_single(fwd(e1, d), fwd(e1, d));
                    lemma_bit_nonzero(1u64 << fwd(e1, d), fwd(e1, d));
                }
            }
        }
        if next == 0 {
            proof {
                if has_origin {
                    assert(k0 == it + 1);
                    assert(1 <= k0 <= 6);
                }
            }
            break;
        }
        candidate = next;
        it = it + 1;
    }
    let bound = shift_dir(candidate, idx) & p;
    let r = if bound != 0 {
        flips
    } else {
        0
    };
    proof {
        if has_origin {
            if k0 == 0 {
                lemma_dir_facts(0u64, s0, s0, d);
                lemma_and_single(p, 0u64);
                assert(dir_capture(p, o, s0, d) == 0);
            } else {
                let e = ray_end(s0, d, k0);
                lemma_run_len_run(o, s0, d);
                lemma_ray_coords(o, s0, d, k0);
                lemma_dir_facts(0u64, e, e, d);
                if can_fwd(e, d) {
                    lemma_and_single(p, fwd(e, d));
                    lemma_bit_single(fwd(e, d), fwd(e, d));
                    lemma_bit_nonzero(1u64 << fwd(e, d), fwd(e, d));
                } else {
                    lemma_and_single(p, 0u64);
                }
                if k0 == 7 {
                    lemma_no_eight(o, s0, d);
                    assert(dir_capture(p, o, s0, d) == 0);
                }
            }
            assert(r == dir_capture(p, o, s0, d));
        }
        assert forall|s: u64| s < 64 && mask == 1u64 << s implies r == dir_capture(
            p, o, s, idx as int) by {
            lemma_bit_single(s, s);
            lemma_bit_single(s0, s);
            assert(s == s0);
        };
    }
    r
}

/// All stones flipped by a move at square `pos`: the union of the 8
/// directions' captures.
pub fn compute_flip_mask(p: u64, o: u64, pos: u32) -> (r: u64)
    requires
        pos < 64,
    ensures
        r == flip_mask_spec(p, o, pos as u64),
{
    let mask: u64 = 1u64 << (pos as u64);
    let mut acc: u64 = 0;
    let mut i: usize = 0;
    while i < 8
        invariant
            i <= 8,
            pos < 64,
            mask == 1u64 << (pos as u64),
            acc == flips_upto(p, o, pos as u64, i as int),
        decreases 8 - i,
    {
        let f = kogge_stone_flips(mask, p, o, i);
        proof {
            assert(f == dir_capture(p, o, pos as u64, i as int));
            assert(flips_upto(p, o, pos as u64, i + 1 as int) == flips_upto(
                p, o, pos as u64, i as int) | dir_capture(p, o, pos as u64, i as int));
        }
        acc = acc | f;
        i = i + 1;
    }
    acc
}

/// The legal-move bitboard: every own stone seeds a flood fill through
/// opponent stones in each direction; one further step landing on an empty
/// square marks a legal move there. On disjoint masks the result agrees
/// bit for bit with the per-square ray model (`is_legal_move`).
pub fn gen_legal_moves(p: u64, o: u64) -> (r: u64)
    ensures
        r == legal_moves_spec(p, o),
        p & o == 0 ==> forall|s: u64| s < 64 ==> (bit_at(r, s) <==> is_legal_move(p, o, s)),
{
    let blank = !(p | o);
    let mut moves: u64 = 0;
    let mut dir: usize = 0;
    while dir < 8
        invariant
            dir <= 8,
            blank == !(p | o),
            moves == moves_upto(p, o, dir as int),
        decreases 8 - dir,
    {
        let ghost dd = dir as int;
        let mut flips: u64 = 0;
        let mut candidate: u64 = shift_dir(p, dir) & o;
        proof {
            assert(cand_bb(p, o, dd, 0) == p);
            assert(cand_bb(p, o, dd, 1) == ks_step(cand_bb(p, o, dd, 0), dd) & o);
            assert(flood_upto(p, o, dd, 0) == 0u64);
        }
        let mut it: u64 = 0;
        while it < 6
            invariant_except_break
                dir < 8,
                dd == dir as int,
                it <= 6,
                flips == flood_upto(p, o, dd, it as nat),
                candidate == cand_bb(p, o, dd, (it + 1) as nat),
            ensures
                dir < 8,
                dd == dir as int,
                flips == flood(p, o, dd),
            decreases 6 - it,
        {
            if candidate == 0 {
                proof {
                    lemma_flood_stable(p, o, dd, (it + 1) as nat, 6);
                }
                break;
            }
            flips = flips | candidate;
            proof {
                assert(flood_upto(p, o, dd, (it + 1) as nat) == flood_upto(p, o, dd, it as nat)
                    | cand_bb(p, o, dd, (it + 1) as nat));
            }
            let next = shift_dir(candidate, dir) & o;
            proof {
                assert(cand_bb(p, o, dd, (it + 2) as nat) == ks_step(
                    cand_bb(p, o, dd, (it + 1) as nat), dd) & o);
            }
            if next == 0 {
                proof {
                    if it + 2 <= 6 {
                        lemma_flood_stable(p, o, dd, (it + 2) as nat, 6);
                    }
                }
                break;
            }
            candidate = next;
            it = it + 1;
        }
        moves = moves | (shift_dir(flips, dir) & blank);
        proof {
            assert(moves_upto(p, o, dd + 1) == moves_upto(p, o, dd) | dir_moves(p, o, dd));
        }
        dir = dir + 1;
    }
    proof {
        if p & o == 0 {
            assert forall|s: u64| s < 64 implies (bit_at(moves, s) <==> is_legal_move(
                p, o, s)) by {
                lemma_moves_bit(p, o, s);
            };
        }
    }
    moves
}

/// The position after playing at `pos`: the mover gains the played square
/// and the flipped stones; the opponent loses the flipped stones (and
/// cannot keep a stone on the played square). Legality is not checked: a
/// move with an empty flip mask places a stone and flips nothing, which
/// callers who need legality must rule out beforehand.
pub fn apply_move(p: u64, o: u64, pos: u32) -> (r: Vec<u64>)
    requires
        pos < 64,
    ensures
        r@.len() == 2,
        r@[0] == p | (1u64 << (pos as u64)) | flip_mask_spec(p, o, pos as u64),
        r@[1] == o & !((1u64 << (pos as u64)) | flip_mask_spec(p, o, pos as u64)),
{
    let f = compute_flip_mask(p, o, pos);
    let m: u64 = 1u64 << (pos as u64);
    let new_p = p | m | f;
    let new_o = o & !(m | f);
    let mut r: Vec<u64> = Vec::new();
    r.push(new_p);
    r.push(new_o);
    r
}

/// Number of set bits of a bitboard (the stone count of one side).
pub fn popcnt64(x: u64) -> (r: u32)
    ensures
        r == pop64(x),
{
    let mut count: u32 = 0;
    let mut i: u64 = 0;
    while i < 64
        invariant
            i <= 64,
            count == pop_upto(x, i as nat),
            count <= i,
        decreases 64 - i,
    {
        if (x >> i) & 1u64 == 1u64 {
            count = count + 1;
        }
        proof {
            assert(pop_upto(x, (i + 1) as nat) == pop_upto(x, i as nat) + if bit_at(x, i) {
                1nat
            } else {
                0nat
            });
        }
        i = i + 1;
    }
    count
}

/// Whether the mover has any legal move. On disjoint masks this is exactly
/// the existence of a legal square in the ray model.
pub fn has_moves(p: u64, o: u64) -> (r: bool)
    ensures
        r == (legal_moves_spec(p, o) != 0),
        p & o == 0 ==> (r <==> exists|s: u64| is_legal_move(p, o, s)),
{
    let m = gen_legal_moves(p, o);
    proof {
        if p & o == 0 {
            if m != 0 {
                lemma_nonzero_has_bit(m);
                let t = choose|t: u64| bit_at(m, t);
                assert(is_legal_move(p, o, t));
            }
            if exists|s: u64| is_legal_move(p, o, s) {
                let s = choose|s: u64| is_legal_move(p, o, s);
                lemma_bit_nonzero(m, s);
            }
        }
    }
    m != 0
}

} // verus!
