//! Board geometry: the eight compass directions as shift amounts with edge
//! masks, the square-level successor function `fwd`, and the lemmas that
//! relate one masked shift (`ks_step`) to single-square moves.

use vstd::prelude::*;
use crate::bits::bit_at;

verus! {

/// Mask clearing column 0; applied after a shift whose source column is 7,
/// it removes the bits that would wrap onto the next row.
pub const NOT_COL_0: u64 = 0xfefe_fefe_fefe_fefe;

/// Mask clearing column 7; the counterpart of `NOT_COL_0` for shifts that
/// would wrap from column 0 onto the previous row.
pub const NOT_COL_7: u64 = 0x7f7f_7f7f_7f7f_7f7f;

/// Row of a square index (0 at the bottom in bit order).
pub open spec fn row_of(s: u64) -> u64 {
    s / 8
}

/// Column of a square index.
pub open spec fn col_of(s: u64) -> u64 {
    s % 8
}

/// Row offset of direction `d`; directions are numbered as in the shift
/// table: +8, -8, +1, -1, +9, +7, -7, -9.
pub open spec fn drow(d: int) -> int {
    if d == 0 {
        1
    } else if d == 1 {
        -1
    } else if d == 2 {
        0
    } else if d == 3 {
        0
    } else if d == 4 {
        1
    } else if d == 5 {
        1
    } else if d == 6 {
        -1
    } else {
        -1
    }
}

/// Column offset of direction `d`.
pub open spec fn dcol(d: int) -> int {
    if d == 0 {
        0
    } else if d == 1 {
        0
    } else if d == 2 {
        1
    } else if d == 3 {
        -1
    } else if d == 4 {
        1
    } else if d == 5 {
        -1
    } else if d == 6 {
        1
    } else {
        -1
    }
}

/// The direction pointing the opposite way.
pub open spec fn opp_dir(d: int) -> int {
    if d == 0 {
        1
    } else if d == 1 {
        0
    } else if d == 2 {
        3
    } else if d == 3 {
        2
    } else if d == 4 {
        7
    } else if d == 5 {
        6
    } else if d == 6 {
        5
    } else {
        4
    }
}

/// The neighbouring square of `s` in direction `d` exists on the board.
pub open spec fn can_fwd(s: u64, d: int) -> bool {
    s < 64 && 0 <= row_of(s) + drow(d) < 8 && 0 <= col_of(s) + dcol(d) < 8
}

/// The neighbouring square of `s` in direction `d` (meaningful under
/// `can_fwd(s, d)`).
pub open spec fn fwd(s: u64, d: int) -> u64 {
    (s + 8 * drow(d) + dcol(d)) as u64
}

/// One flood-fill step: every bit moved one square in direction `d`, with
/// the direction's edge mask removing the bits that would wrap across a
/// board file.
pub open spec fn ks_step(x: u64, d: int) -> u64 {
    if d == 0 {
        x << 8u64
    } else if d == 1 {
        x >> 8u64
    } else if d == 2 {
        (x << 1u64) & NOT_COL_0
    } else if d == 3 {
        (x >> 1u64) & NOT_COL_7
    } else if d == 4 {
        (x << 9u64) & NOT_COL_0
    } else if d == 5 {
        (x << 7u64) & NOT_COL_7
    } else if d == 6 {
        (x >> 7u64) & NOT_COL_0
    } else {
        (x >> 9u64) & NOT_COL_7
    }
}

/// The facts tying one masked shift to board geometry: a bit of
/// `ks_step(x, d)` at `s` comes from the bit of `x` one square back; a
/// single-square mask steps to the single-square mask of its neighbour, or
/// vanishes at the edge; stepping the empty board gives the empty board;
/// `fwd` stays on the board, moves row and column by the direction's
/// offsets, and is undone by the opposite direction.
pub proof fn lemma_dir_facts(x: u64, s: u64, t: u64, d: int)
    requires
        0 <= d < 8,
    ensures
        bit_at(ks_step(x, d), s) <==> (can_fwd(s, opp_dir(d)) && bit_at(x, fwd(s, opp_dir(d)))),
        t < 64 ==> ks_step(1u64 << t, d) == (if can_fwd(t, d) {
            1u64 << fwd(t, d)
        } else {
            0u64
        }),
        ks_step(0u64, d) == 0u64,
        can_fwd(s, d) ==> (fwd(s, d) < 64 && row_of(fwd(s, d)) == row_of(s) + drow(d) && col_of(
            fwd(s, d)) == col_of(s) + dcol(d) && can_fwd(fwd(s, d), opp_dir(d)) && fwd(
            fwd(s, d), opp_dir(d)) == s),
        0 <= opp_dir(d) < 8 && opp_dir(opp_dir(d)) == d && drow(opp_dir(d)) == -drow(d) && dcol(
            opp_dir(d)) == -dcol(d),
{
    if d == 0 {
        assert((bit_at(ks_step(x, 0), s) <==> (can_fwd(s, 1) && bit_at(x, fwd(s, 1)))) && (t < 64
            ==> ks_step(1u64 << t, 0) == (if can_fwd(t, 0) {
            1u64 << fwd(t, 0)
        } else {
            0u64
        })) && ks_step(0u64, 0) == 0u64 && (can_fwd(s, 0) ==> (fwd(s, 0) < 64 && row_of(
            fwd(s, 0)) == row_of(s) + 1 && col_of(fwd(s, 0)) == col_of(s) && can_fwd(fwd(s, 0), 1)
            && fwd(fwd(s, 0), 1) == s))) by (bit_vector);
    } else if d == 1 {
        assert((bit_at(ks_step(x, 1), s) <==> (can_fwd(s, 0) && bit_at(x, fwd(s, 0)))) && (t < 64
            ==> ks_step(1u64 << t, 1) == (if can_fwd(t, 1) {
            1u64 << fwd(t, 1)
        } else {
            0u64
        })) && ks_step(0u64, 1) == 0u64 && (can_fwd(s, 1) ==> (fwd(s, 1) < 64 && row_of(
            fwd(s, 1)) == row_of(s) - 1 && col_of(fwd(s, 1)) == col_of(s) && can_fwd(fwd(s, 1), 0)
            && fwd(fwd(s, 1), 0) == s))) by (bit_vector);
    } else if d == 2 {
        assert((bit_at(ks_step(x, 2), s) <==> (can_fwd(s, 3) && bit_at(x, fwd(s, 3)))) && (t < 64
            ==> ks_step(1u64 << t, 2) == (if can_fwd(t, 2) {
            1u64 << fwd(t, 2)
        } else {
            0u64
        })) && ks_step(0u64, 2) == 0u64 && (can_fwd(s, 2) ==> (fwd(s, 2) < 64 && row_of(
            fwd(s, 2)) == row_of(s) && col_of(fwd(s, 2)) == col_of(s) + 1 && can_fwd(fwd(s, 2), 3)
            && fwd(fwd(s, 2), 3) == s))) by (bit_vector);
    } else if d == 3 {
        assert((bit_at(ks_step(x, 3), s) <==> (can_fwd(s, 2) && bit_at(x, fwd(s, 2)))) && (t < 64
            ==> ks_step(1u64 << t, 3) == (if can_fwd(t, 3) {
            1u64 << fwd(t, 3)
        } else {
            0u64
        })) && ks_step(0u64, 3) == 0u64 && (can_fwd(s, 3) ==> (fwd(s, 3) < 64 && row_of(
            fwd(s, 3)) == row_of(s) && col_of(fwd(s, 3)) == col_of(s) - 1 && can_fwd(fwd(s, 3), 2)
            && fwd(fwd(s, 3), 2) == s))) by (bit_vector);
    } else if d == 4 {
        assert((bit_at(ks_step(x, 4), s) <==> (can_fwd(s, 7) && bit_at(x, fwd(s, 7)))) && (t < 64
            ==> ks_step(1u64 << t, 4) == (if can_fwd(t, 4) {
            1u64 << fwd(t, 4)
        } else {
            0u64
        })) && ks_step(0u64, 4) == 0u64 && (can_fwd(s, 4) ==> (fwd(s, 4) < 64 && row_of(
            fwd(s, 4)) == row_of(s) + 1 && col_of(fwd(s, 4)) == col_of(s) + 1 && can_fwd(
            fwd(s, 4), 7) && fwd(fwd(s, 4), 7) == s))) by (bit_vector);
    } else if d == 5 {
        assert((bit_at(ks_step(x, 5), s) <==> (can_fwd(s, 6) && bit_at(x, fwd(s, 6)))) && (t < 64
            ==> ks_step(1u64 << t, 5) == (if can_fwd(t, 5) {
            1u64 << fwd(t, 5)
        } else {
            0u64
        })) && ks_step(0u64, 5) == 0u64 && (can_fwd(s, 5) ==> (fwd(s, 5) < 64 && row_of(
            fwd(s, 5)) == row_of(s) + 1 && col_of(fwd(s, 5)) == col_of(s) - 1 && can_fwd(
            fwd(s, 5), 6) && fwd(fwd(s, 5), 6) == s))) by (bit_vector);
    } else if d == 6 {
        assert((bit_at(ks_step(x, 6), s) <==> (can_fwd(s, 5) && bit_at(x, fwd(s, 5)))) && (t < 64
            ==> ks_step(1u64 << t, 6) == (if can_fwd(t, 6) {
            1u64 << fwd(t, 6)
        } else {
            0u64
        })) && ks_step(0u64, 6) == 0u64 && (can_fwd(s, 6) ==> (fwd(s, 6) < 64 && row_of(
            fwd(s, 6)) == row_of(s) - 1 && col_of(fwd(s, 6)) == col_of(s) + 1 && can_fwd(
            fwd(s, 6), 5) && fwd(fwd(s, 6), 5) == s))) by (bit_vector);
    } else {
        assert((bit_at(ks_step(x, 7), s) <==> (can_fwd(s, 4) && bit_at(x, fwd(s, 4)))) && (t < 64
            ==> ks_step(1u64 << t, 7) == (if can_fwd(t, 7) {
            1u64 << fwd(t, 7)
        } else {
            0u64
        })) && ks_step(0u64, 7) == 0u64 && (can_fwd(s, 7) ==> (fwd(s, 7) < 64 && row_of(
            fwd(s, 7)) == row_of(s) - 1 && col_of(fwd(s, 7)) == col_of(s) - 1 && can_fwd(
            fwd(s, 7), 4) && fwd(fwd(s, 7), 4) == s))) by (bit_vector);
    }
}

} // verus!
