/// The cube as two words of 64 bits, and the heuristic scores of a move.
pub mod bitboard;
/// Facts about single bits of a word.
pub mod bits;
/// Pieces, players, the cell model shared by both boards, and the plain
/// array board.
pub mod board;
/// The lines of four through each cell, and the table of their masks.
pub mod lines;
/// Monte Carlo tree search with UCB1 and PUCT selection.
pub mod simple_puct;

use vstd::prelude::*;

verus! {

/// Side length of the cube.
pub const N: usize = 4;

/// Splits a column number into its row and its position in the row.
pub fn unpack_index(index: usize) -> (r: (usize, usize))
    ensures
        r.0 == index / 4,
        r.1 == index % 4,
{
    (index / N, index % N)
}

} // verus!
