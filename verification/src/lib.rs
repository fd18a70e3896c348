//! Verified move generation for an 8x8 Othello/Reversi board.
//!
//! A position is a pair of disjoint 64-bit occupancy masks (`own`, `opp`),
//! bit `i` standing for square `i` in row-major order. The executable
//! operations compute legal moves and flip sets with bit-parallel
//! Kogge-Stone flood fills; their contracts relate the results to a
//! square-by-square ray model of the board.

pub mod bits;
pub mod geom;
pub mod rays;
pub mod flood;
pub mod board;
pub mod groups;
pub mod laws;
