use othello_bitboard::board::{
    apply_move, compute_flip_mask, gen_legal_moves, has_moves, kogge_stone_flips, popcnt64,
};
use othello_bitboard::groups::gen_flip_groups;

/// Standard start position, mover to play: stones on d4/e5, opponent on
/// d5/e4 (bits 28 and 35 versus 27 and 36).
const START_OWN: u64 = 0x0000000810000000;
const START_OPP: u64 = 0x0000001008000000;

#[test]
fn start_position_has_four_moves() {
    let moves = gen_legal_moves(START_OWN, START_OPP);
    assert_eq!(popcnt64(moves), 4);
    // Landing squares: 19 and 26 capture the stone on 27; 37 and 44
    // capture the stone on 36.
    assert_eq!(moves, (1u64 << 19) | (1u64 << 26) | (1u64 << 37) | (1u64 << 44));
    assert!(has_moves(START_OWN, START_OPP));
}

#[test]
fn start_position_moves_flip_one_stone_each() {
    let moves = gen_legal_moves(START_OWN, START_OPP);
    for sq in 0..64u32 {
        if (moves >> sq) & 1 == 1 {
            let flips = compute_flip_mask(START_OWN, START_OPP, sq);
            assert_eq!(popcnt64(flips), 1);
            let next = apply_move(START_OWN, START_OPP, sq);
            assert_eq!(next.len(), 2);
            assert_eq!(popcnt64(next[0]), 4);
            assert_eq!(popcnt64(next[1]), 1);
            assert_eq!(next[0] & next[1], 0);
        }
    }
}

#[test]
fn empty_board_has_no_moves() {
    assert_eq!(gen_legal_moves(0, 0), 0);
    assert!(!has_moves(0, 0));
}

#[test]
fn full_board_has_no_moves() {
    let own = 0xffffffff00000000u64;
    let opp = 0x00000000ffffffffu64;
    assert_eq!(own | opp, u64::MAX);
    assert_eq!(gen_legal_moves(own, opp), 0);
    assert!(!has_moves(own, opp));
}

#[test]
fn no_wraparound_across_east_edge() {
    // Own stone on column 6, opponent on column 7 of row 0. An unmasked
    // eastward shift would spill onto square 8 (row 1, column 0); the edge
    // mask must prevent both the move and any flip there.
    let own = 1u64 << 6;
    let opp = 1u64 << 7;
    assert_eq!(gen_legal_moves(own, opp), 0);
    assert_eq!(compute_flip_mask(own, opp, 8), 0);
    assert!(!has_moves(own, opp));
}

#[test]
fn no_wraparound_across_west_edge() {
    // Mirror image: own on column 1, opponent on column 0 of row 1.
    let own = 1u64 << 9;
    let opp = 1u64 << 8;
    assert_eq!(gen_legal_moves(own, opp), 0);
    assert_eq!(compute_flip_mask(own, opp, 7), 0);
}

#[test]
fn single_direction_run_is_captured() {
    // Own stone on square 0, opponents on 1 and 2; a move at 3 captures
    // both by the westward ray (direction index 3 is the -1 shift).
    let own = 1u64;
    let opp = (1u64 << 1) | (1u64 << 2);
    let flips = kogge_stone_flips(1u64 << 3, own, opp, 3);
    assert_eq!(flips, (1u64 << 1) | (1u64 << 2));
    assert_eq!(compute_flip_mask(own, opp, 3), (1u64 << 1) | (1u64 << 2));
    assert_eq!(gen_legal_moves(own, opp), 1u64 << 3);
}

#[test]
fn unbounded_run_is_not_captured() {
    // Opponents all the way to the edge with no own stone beyond: the run
    // is never bounded, so nothing flips and the square is not legal.
    let own = 0u64;
    let opp = (1u64 << 1) | (1u64 << 2) | 1u64;
    assert_eq!(compute_flip_mask(own, opp, 3), 0);
    assert_eq!(gen_legal_moves(own, opp), 0);
}

#[test]
fn six_stone_run_is_captured_whole() {
    // Own stone on column 0, opponents filling columns 1 to 6 of row 0:
    // the move at column 7 captures all six — the longest possible run.
    let own = 1u64;
    let opp = 0b0111_1110u64;
    assert_eq!(compute_flip_mask(own, opp, 7), opp);
    assert_eq!(gen_legal_moves(own, opp), 1u64 << 7);
}

#[test]
fn seven_stone_run_cannot_be_bounded() {
    // Opponents on rows 1 to 7 of column 0: the run from square 0 fills
    // the file edge to edge, no own stone can bound it, nothing flips.
    let opp = (1u64 << 8) | (1u64 << 16) | (1u64 << 24) | (1u64 << 32) | (1u64 << 40)
        | (1u64 << 48) | (1u64 << 56);
    let own = 1u64 << 7;
    assert_eq!(compute_flip_mask(own, opp, 0), 0);
    assert_eq!(gen_legal_moves(own, opp), 0);
}

#[test]
fn flip_groups_match_flip_mask() {
    let moves = gen_legal_moves(START_OWN, START_OPP);
    for sq in 0..64u32 {
        if (moves >> sq) & 1 == 1 {
            let groups = gen_flip_groups(START_OWN, START_OPP, sq);
            assert_eq!(groups.len(), 8);
            let mut rebuilt = 0u64;
            for g in &groups {
                let mut prev: i32 = -1;
                for &ix in g {
                    assert!((ix as i32) > prev, "indices must ascend");
                    prev = ix as i32;
                    rebuilt |= 1u64 << ix;
                }
            }
            assert_eq!(rebuilt, compute_flip_mask(START_OWN, START_OPP, sq));
        }
    }
}

#[test]
fn flip_groups_separate_directions() {
    // Two independent rays from one square: a move at 8 flips 9 and 10
    // eastward (bounded by the own stone at 11) and 16 northward (bounded
    // by the own stone at 24).
    let own = (1u64 << 11) | (1u64 << 24);
    let opp = (1u64 << 9) | (1u64 << 10) | (1u64 << 16);
    let flips = compute_flip_mask(own, opp, 8);
    assert_eq!(flips, (1u64 << 9) | (1u64 << 10) | (1u64 << 16));
    let groups = gen_flip_groups(own, opp, 8);
    // Direction 0 is the +8 shift (north): the run 16 bounded by 24.
    assert_eq!(groups[0], vec![16u8]);
    // Direction 2 is the +1 shift (east): the run 9, 10 bounded by 11.
    assert_eq!(groups[2], vec![9u8, 10u8]);
    for d in [1usize, 3, 4, 5, 6, 7] {
        assert!(groups[d].is_empty());
    }
}

#[test]
fn apply_move_without_capture_places_stone_only() {
    // Applying a move with an empty flip mask is not an error: the stone
    // is placed and nothing flips; callers must pre-check legality.
    let own = 1u64;
    let opp = 1u64 << 63;
    let next = apply_move(own, opp, 10);
    assert_eq!(next[0], own | (1u64 << 10));
    assert_eq!(next[1], opp);
}

#[test]
fn popcnt_exact_values() {
    assert_eq!(popcnt64(0), 0);
    assert_eq!(popcnt64(u64::MAX), 64);
    assert_eq!(popcnt64(0x8000000000000001), 2);
    assert_eq!(popcnt64(START_OWN), 2);
}

#[test]
fn operations_are_pure() {
    // Same inputs, bit-identical outputs, for every operation.
    assert_eq!(
        gen_legal_moves(START_OWN, START_OPP),
        gen_legal_moves(START_OWN, START_OPP)
    );
    assert_eq!(
        compute_flip_mask(START_OWN, START_OPP, 19),
        compute_flip_mask(START_OWN, START_OPP, 19)
    );
    assert_eq!(
        gen_flip_groups(START_OWN, START_OPP, 19),
        gen_flip_groups(START_OWN, START_OPP, 19)
    );
    assert_eq!(
        apply_move(START_OWN, START_OPP, 19),
        apply_move(START_OWN, START_OPP, 19)
    );
    assert_eq!(popcnt64(START_OWN), popcnt64(START_OWN));
    assert_eq!(
        has_moves(START_OWN, START_OPP),
        has_moves(START_OWN, START_OPP)
    );
}

#[test]
fn bulk_moves_agree_with_per_square_flips() {
    // The bulk board equals the union over all squares of "empty and
    // flip mask nonzero", checked here on a handful of positions.
    let positions = [
        (START_OWN, START_OPP),
        (1u64, (1u64 << 1) | (1u64 << 2)),
        ((1u64 << 11) | (1u64 << 24), (1u64 << 9) | (1u64 << 10) | (1u64 << 16)),
        (0u64, 0u64),
        (0xffffffff00000000u64, 0x00000000ffffffffu64),
    ];
    for &(own, opp) in positions.iter() {
        let bulk = gen_legal_moves(own, opp);
        let mut union = 0u64;
        for sq in 0..64u32 {
            let occupied = ((own | opp) >> sq) & 1 == 1;
            if !occupied && compute_flip_mask(own, opp, sq) != 0 {
                union |= 1u64 << sq;
            }
        }
        assert_eq!(bulk, union);
    }
}
