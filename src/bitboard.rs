use vstd::prelude::*;

use crate::bits::{
    count_ones, has_bit, lemma_all_bits, lemma_disjoint, lemma_disjoint_set, lemma_or_bit,
    lemma_set_bit, popcount,
};
use crate::board::{
    all_occupied, completes_line, dropped, first_win_from, landing, lemma_first_empty,
    line_owned, winning_column, wins_in_column, Board, Piece, Player,
};
use crate::lines::{
    applies_exec, coords, covers, lemma_line_mask, lemma_masks_len, lemma_masks_prefix,
    line_cell, line_mask, line_masks, masks_below, own_param, LineTable, N_DIRS,
};

verus! {

/// Weight of one line for the simple scorer, from the pieces `mine` and
/// `theirs` on the line's other cells: 2 for a line only one side has
/// entered, 1 for an empty line, 0 for a line both sides have entered.
pub open spec fn simple_weight(mine: u64, theirs: u64, m: u64) -> nat {
    let a = mine & m;
    let b = theirs & m;
    if (a == 0 && b != 0) || (a != 0 && b == 0) {
        2
    } else if a == 0 && b == 0 {
        1
    } else {
        0
    }
}

/// Sum of `simple_weight` over a list of line masks.
pub open spec fn simple_sum(mine: u64, theirs: u64, ms: Seq<u64>) -> nat
    decreases ms.len(),
{
    if ms.len() == 0 {
        0
    } else {
        simple_sum(mine, theirs, ms.drop_last()) + simple_weight(mine, theirs, ms.last())
    }
}

/// Mask of the bottom layer of the cube.
pub const LAYER_ONE: u64 = 0xFFFF;

/// Mask of the third layer of the cube.
pub const LAYER_THREE: u64 = 0xFFFF_0000_0000;

/// Weight of one line for the counting scorer. A line that only one side has
/// entered scores 2 when it holds a single piece; otherwise its empty cell
/// decides: 1 when it can be played now, being on the bottom layer or above
/// an occupied cell (a plain threat), and otherwise 8 when it is on the third
/// layer and 5 elsewhere (a trap). Empty and dead
/// lines score as in `simple_weight`.
pub open spec fn count_weight(mine: u64, theirs: u64, all: u64, m: u64) -> nat {
    let a = mine & m;
    let b = theirs & m;
    if (a == 0 && b != 0) || (a != 0 && b == 0) {
        if popcount(a) + popcount(b) == 1 {
            2
        } else {
            let last = (!a & m) & (!b & m);
            if last & LAYER_ONE != 0 || all & (last >> 16u64) != 0 {
                1
            } else if last & LAYER_THREE != 0 {
                8
            } else {
                5
            }
        }
    } else if a == 0 && b == 0 {
        1
    } else {
        0
    }
}

/// Sum of `count_weight` over a list of line masks.
pub open spec fn count_sum(mine: u64, theirs: u64, all: u64, ms: Seq<u64>) -> nat
    decreases ms.len(),
{
    if ms.len() == 0 {
        0
    } else {
        count_sum(mine, theirs, all, ms.drop_last()) + count_weight(mine, theirs, all, ms.last())
    }
}

/// Index of a player's word in `BitBoard::boards`.
fn player_index(player: Player) -> (r: usize)
    ensures
        r == player_slot(player),
{
    match player {
        Player::Black => 0,
        Player::White => 1,
    }
}

pub open spec fn player_slot(player: Player) -> usize {
    match player {
        Player::Black => 0,
        Player::White => 1,
    }
}

/// The cube as two words, one per player, with bit `height * 16 + column`
/// set where that player has a piece.
#[derive(Clone, Copy, Debug)]
pub struct BitBoard {
    boards: [u64; 2],
    next_player: Player,
}

impl BitBoard {
    /// The word of `player`.
    pub closed spec fn word(&self, player: Player) -> u64 {
        self.boards@[player_slot(player) as int]
    }

    /// The 64 cells, indexed by `height * 16 + column`.
    pub closed spec fn cells(&self) -> Seq<Piece> {
        Seq::new(
            64,
            |x: int|
                if has_bit(self.boards@[0], x as u64) {
                    Piece::Black
                } else if has_bit(self.boards@[1], x as u64) {
                    Piece::White
                } else {
                    Piece::Empty
                },
        )
    }

    pub closed spec fn mover(&self) -> Player {
        self.next_player
    }

    /// No cell is held by both players.
    pub closed spec fn wf(&self) -> bool {
        self.boards@[0] & self.boards@[1] == 0
    }

    pub proof fn lemma_len(&self)
        ensures
            self.cells().len() == 64,
    {
    }

    /// A player's word has the bit of a cell exactly when the player holds it.
    pub proof fn lemma_word(&self, y: int)
        requires
            self.wf(),
            0 <= y < 64,
        ensures
            has_bit(self.word(Player::Black), y as u64) <==> self.cells()[y] == Piece::Black,
            has_bit(self.word(Player::White), y as u64) <==> self.cells()[y] == Piece::White,
            has_bit(self.word(Player::Black) | self.word(Player::White), y as u64) <==> self.cells()[y]
                != Piece::Empty,
    {
        lemma_disjoint(self.boards@[0], self.boards@[1], y as u64);
        lemma_or_bit(self.boards@[0], self.boards@[1], y as u64);
    }

    /// An empty board with Black to move.
    pub fn new() -> (r: BitBoard)
        ensures
            r.wf(),
            r.cells().len() == 64,
            forall|x: int| 0 <= x < 64 ==> r.cells()[x] == Piece::Empty,
            r.mover() == Player::Black,
    {
        let r = BitBoard { boards: [0u64, 0u64], next_player: Player::Black };
        assert forall|x: int| 0 <= x < 64 implies r.cells()[x] == Piece::Empty by {
            let y = x as u64;
            assert(0u64 & (1u64 << y) == 0) by (bit_vector);
        }
        assert(0u64 & 0u64 == 0) by (bit_vector);
        r
    }

    /// The player to move.
    pub fn next_player(&self) -> (r: Player)
        ensures
            r == self.mover(),
    {
        self.next_player
    }

    /// What cell `index` holds.
    pub fn cell(&self, index: usize) -> (r: Piece)
        requires
            index < 64,
        ensures
            r == self.cells()[index as int],
    {
        let bit = 1u64 << index as u64;
        if self.boards[0] & bit != 0 {
            Piece::Black
        } else if self.boards[1] & bit != 0 {
            Piece::White
        } else {
            Piece::Empty
        }
    }

    /// The cell at which a piece dropped into column `index_2d` comes to rest,
    /// or `None` when the column is full.
    pub fn find_index(&self, index_2d: usize) -> (r: Option<usize>)
        requires
            self.wf(),
            index_2d < 16,
        ensures
            match landing(self.cells(), index_2d as int) {
                Some(k) => r == Some((k * 16 + index_2d) as usize),
                None => r.is_none(),
            },
    {
        let board = self.boards[0] | self.boards[1];
        let mut k: usize = 0;
        while k < 4
            invariant
                self.wf(),
                index_2d < 16,
                k <= 4,
                board == self.boards@[0] | self.boards@[1],
                landing(self.cells(), index_2d as int) == crate::board::first_empty_from(
                    self.cells(),
                    index_2d as int,
                    k as int,
                ),
            decreases 4 - k,
        {
            let x = k * 16 + index_2d;
            proof {
                self.lemma_word(x as int);
            }
            if board & (1u64 << x as u64) == 0 {
                return Some(x);
            }
            k += 1;
        }
        None
    }

    /// The same position as an array board.
    pub fn to_board(&self) -> (r: Board)
        requires
            self.wf(),
        ensures
            r.cells() == self.cells(),
            r.mover() == self.mover(),
    {
        let mut r = Board::new();
        r.set_next_player(self.next_player);
        let mut x: usize = 0;
        while x < 64
            invariant
                x <= 64,
                r.mover() == self.mover(),
                r.cells().len() == 64,
                forall|y: int| 0 <= y < x ==> #[trigger] r.cells()[y] == self.cells()[y],
                forall|y: int| x <= y < 64 ==> #[trigger] r.cells()[y] == Piece::Empty,
            decreases 64 - x,
        {
            r.set_piece(x % 16, x / 16, self.cell(x));
            assert(x / 16 * 16 + x % 16 == x);
            x += 1;
        }
        assert(r.cells() =~= self.cells());
        r
    }

    /// The same position as a bitboard.
    pub fn from_board(a: &Board) -> (r: BitBoard)
        ensures
            r.wf(),
            r.cells() == a.cells(),
            r.mover() == a.mover(),
    {
        proof {
            a.lemma_len();
        }
        let mut b0: u64 = 0;
        let mut b1: u64 = 0;
        let mut x: usize = 0;
        assert(b0 & b1 == 0) by (bit_vector)
            requires
                b0 == 0,
                b1 == 0,
        ;
        assert forall|y: u64| y < 64 implies !has_bit(0u64, y) by {
            assert(0u64 & (1u64 << y) == 0) by (bit_vector);
        }
        while x < 64
            invariant
                x <= 64,
                b0 & b1 == 0,
                forall|y: int|
                    0 <= y < x ==> (#[trigger] has_bit(b0, y as u64) <==> a.cells()[y] == Piece::Black),
                forall|y: int|
                    0 <= y < x ==> (#[trigger] has_bit(b1, y as u64) <==> a.cells()[y] == Piece::White),
                forall|y: int| x <= y < 64 ==> !#[trigger] has_bit(b0, y as u64),
                forall|y: int| x <= y < 64 ==> !#[trigger] has_bit(b1, y as u64),
                a.cells().len() == 64,
            decreases 64 - x,
        {
            let bit = 1u64 << x as u64;
            let ghost (o0, o1) = (b0, b1);
            match a.cell(x) {
                Piece::Black => {
                    proof {
                        lemma_disjoint_set(b0, b1, x as u64);
                    }
                    b0 = b0 | bit;
                },
                Piece::White => {
                    proof {
                        assert(b1 & b0 == b0 & b1) by (bit_vector);
                        lemma_disjoint_set(b1, b0, x as u64);
                        assert(b0 & (b1 | bit) == (b1 | bit) & b0) by (bit_vector);
                    }
                    b1 = b1 | bit;
                },
                Piece::Empty => {},
            }
            proof {
                assert forall|y: int| 0 <= y < 64 implies (#[trigger] has_bit(b0, y as u64) <==> (
                has_bit(o0, y as u64) || (y == x && a.cells()[y] == Piece::Black))) by {
                    lemma_set_bit(o0, x as u64, y as u64);
                }
                assert forall|y: int| 0 <= y < 64 implies (#[trigger] has_bit(b1, y as u64) <==> (
                has_bit(o1, y as u64) || (y == x && a.cells()[y] == Piece::White))) by {
                    lemma_set_bit(o1, x as u64, y as u64);
                }
            }
            x += 1;
        }
        let r = BitBoard { boards: [b0, b1], next_player: a.next_player() };
        assert(r.cells() =~= a.cells());
        r
    }

    /// The board after the player to move takes the empty cell `index`.
    fn put_without_check(&self, index: usize) -> (r: Self)
        requires
            self.wf(),
            index < 64,
            self.cells()[index as int] == Piece::Empty,
        ensures
            r.wf(),
            r.cells() == self.cells().update(index as int, self.mover().piece()),
            r.mover() == self.mover().other(),
            r.word(self.mover()) == self.word(self.mover()) | (1u64 << index as u64),
            r.word(self.mover().other()) == self.word(self.mover().other()),
    {
        let bit = 1u64 << index as u64;
        let (b0, b1) = (self.boards[0], self.boards[1]);
        proof {
            self.lemma_word(index as int);
        }
        let boards = match self.next_player {
            Player::Black => [b0 | bit, b1],
            Player::White => [b0, b1 | bit],
        };
        let r = BitBoard { boards, next_player: self.next_player.next_player() };
        proof {
            let y = index as u64;
            match self.next_player {
                Player::Black => lemma_disjoint_set(b0, b1, y),
                Player::White => {
                    assert(b1 & b0 == b0 & b1) by (bit_vector);
                    lemma_disjoint_set(b1, b0, y);
                    assert(b0 & (b1 | bit) == (b1 | bit) & b0) by (bit_vector);
                },
            }
            assert forall|x: int| 0 <= x < 64 implies r.cells()[x] == self.cells().update(
                index as int,
                self.mover().piece(),
            )[x] by {
                lemma_set_bit(b0, y, x as u64);
                lemma_set_bit(b1, y, x as u64);
            }
            assert(r.cells() =~= self.cells().update(index as int, self.mover().piece()));
        }
        r
    }

    /// The board after the player to move drops a piece into column
    /// `index_2d`, or `None` when that column is full.
    pub fn put(&self, index_2d: usize) -> (r: Option<Self>)
        requires
            self.wf(),
            index_2d < 16,
        ensures
            r.is_none() <==> landing(self.cells(), index_2d as int).is_none(),
            r matches Some(b) ==> b.wf() && b.cells() == dropped(
                self.cells(),
                index_2d as int,
                landing(self.cells(), index_2d as int).unwrap() as int,
                self.mover(),
            ) && b.mover() == self.mover().other(),
    {
        proof {
            lemma_first_empty(self.cells(), index_2d as int, 0);
        }
        let index = match self.find_index(index_2d) {
            Some(index) => index,
            None => return None,
        };
        Some(self.put_without_check(index))
    }

    /// Whether every cell is occupied.
    pub fn is_full(&self) -> (r: bool)
        requires
            self.wf(),
        ensures
            r == all_occupied(self.cells()),
    {
        let board = self.boards[0] | self.boards[1];
        proof {
            lemma_all_bits(board);
            assert forall|x: int| 0 <= x < 64 implies (self.cells()[x] != Piece::Empty
                <==> has_bit(board, x as u64)) by {
                self.lemma_word(x);
            }
            if !all_occupied(self.cells()) {
                let x = choose|x: int| 0 <= x < 64 && self.cells()[x] == Piece::Empty;
                assert(!has_bit(board, x as u64));
            } else {
                assert forall|y: u64| y < 64 implies #[trigger] has_bit(board, y) by {
                    assert(self.cells()[y as int] != Piece::Empty);
                }
            }
        }
        board == 0xffff_ffff_ffff_ffffu64
    }

    /// Whether `player` placing at cell `x` completes a line, read from the
    /// masks of the lines through `x`.
    fn completes_at(&self, table: &LineTable, player: Player, x: usize) -> (r: bool)
        requires
            self.wf(),
            table.wf(),
            x < 64,
        ensures
            r == completes_line(
                self.cells(),
                player.piece(),
                coords(x as int).0,
                coords(x as int).1,
                coords(x as int).2,
            ),
    {
        let w = self.boards[player_index(player)];
        let masks = table.masks_of(x);
        let ghost cells = self.cells();
        let ghost p = player.piece();
        let ghost owned = Seq::new(64, |y: int| cells[y] == p);
        proof {
            assert forall|y: int| 0 <= y < 64 implies owned[y] == has_bit(w, y as u64) by {
                self.lemma_word(y);
            }
        }
        let i = x / 4 % 4;
        let j = x % 4;
        let k = x / 16;
        let mut n: usize = 0;
        let mut d: usize = 0;
        while d < N_DIRS
            invariant
                x < 64,
                i == coords(x as int).0,
                j == coords(x as int).1,
                k == coords(x as int).2,
                masks@ == line_masks(x as int),
                d <= 13,
                n == masks_below(x as int, d as int).len(),
                n <= d,
                cells == self.cells(),
                p == player.piece(),
                owned == Seq::new(64, |y: int| cells[y] == p),
                forall|y: int| 0 <= y < 64 ==> owned[y] == has_bit(w, y as u64),
                forall|e: int| 0 <= e < d ==> !#[trigger] line_owned(cells, p, e, i as int, j as int, k as int),
            decreases 13 - d,
        {
            proof {
                lemma_masks_prefix(x as int, d as int + 1, 13);
            }
            if applies_exec(d, i, j, k) {
                let m = masks[n];
                proof {
                    assert(masks_below(x as int, d as int + 1)[n as int] == line_mask(d as int, x as int));
                    lemma_line_mask(d as int, x as int, w, owned);
                }
                if w & m == m {
                    proof {
                        assert(covers(w, line_mask(d as int, x as int)));
                        assert forall|t: int|
                            0 <= t < 4 && t != own_param(d as int, i as int, j as int, k as int)
                                implies cells[#[trigger] line_cell(d as int, t, i as int, j as int, k as int)] == p by {
                            assert(owned[line_cell(d as int, t, i as int, j as int, k as int)]);
                        }
                    }
                    assert(line_owned(cells, p, d as int, i as int, j as int, k as int));
                    return true;
                }
                n += 1;
            } else {
                proof {
                    assert(!crate::lines::applies(d as int, i as int, j as int, k as int));
                }
            }
            proof {
                if crate::lines::applies(d as int, i as int, j as int, k as int) && line_owned(cells, p, d as int, i as int, j as int, k as int) {
                    assert forall|t: int|
                        0 <= t < 4 && t != own_param(d as int, i as int, j as int, k as int)
                            implies #[trigger] owned[line_cell(d as int, t, i as int, j as int, k as int)] by {
                        assert(cells[line_cell(d as int, t, i as int, j as int, k as int)] == p);
                    }
                }
            }
            d += 1;
        }
        false
    }

    /// The first column, in row-major order, where `player` completes a line.
    fn win_index_2d_player(&self, table: &LineTable, player: Player) -> (r: Option<usize>)
        requires
            self.wf(),
            table.wf(),
        ensures
            r == winning_column(self.cells(), player.piece()),
    {
        let mut c: usize = 0;
        while c < 16
            invariant
                self.wf(),
                table.wf(),
                c <= 16,
                winning_column(self.cells(), player.piece()) == first_win_from(
                    self.cells(),
                    player.piece(),
                    c as int,
                ),
            decreases 16 - c,
        {
            if let Some(x) = self.find_index(c) {
                let ghost k = landing(self.cells(), c as int).unwrap() as int;
                proof {
                    lemma_first_empty(self.cells(), c as int, 0);
                    assert(coords(x as int) == (c as int / 4, c as int % 4, k));
                }
                if self.completes_at(table, player, x) {
                    assert(wins_in_column(self.cells(), player.piece(), c as int));
                    return Some(c);
                }
            }
            c += 1;
        }
        None
    }

    /// The first column where the player to move completes a line.
    pub fn win_index(&self, table: &LineTable) -> (r: Option<usize>)
        requires
            self.wf(),
            table.wf(),
        ensures
            r == winning_column(self.cells(), self.mover().piece()),
    {
        self.win_index_2d_player(table, self.next_player)
    }

    /// The first column where the opponent of the player to move would
    /// complete a line: the column the player to move has to block.
    pub fn check_index(&self, table: &LineTable) -> (r: Option<usize>)
        requires
            self.wf(),
            table.wf(),
        ensures
            r == winning_column(self.cells(), self.mover().other().piece()),
    {
        self.win_index_2d_player(table, self.next_player.next_player())
    }

    /// The simple score of the cell `index` for the player to move.
    fn simple_policy(&self, table: &LineTable, index: usize) -> (r: usize)
        requires
            self.wf(),
            table.wf(),
            index < 64,
        ensures
            r == simple_sum(
                self.word(self.mover()),
                self.word(self.mover().other()),
                line_masks(index as int),
            ),
            r <= 26,
    {
        let mine = self.boards[player_index(self.next_player)];
        let theirs = self.boards[player_index(self.next_player.next_player())];
        let masks = table.masks_of(index);
        let mut total: usize = 0;
        let mut n: usize = 0;
        proof {
            lemma_masks_prefix(index as int, 0, 13);
            lemma_masks_len(index as int, 13);
        }
        while n < masks.len()
            invariant
                n <= masks@.len(),
                masks@.len() <= 13,
                total == simple_sum(mine, theirs, masks@.take(n as int)),
                total <= 2 * n,
            decreases masks@.len() - n,
        {
            let m = masks[n];
            let a = mine & m;
            let b = theirs & m;
            let w: usize = if (a == 0 && b != 0) || (a != 0 && b == 0) {
                2
            } else if a == 0 && b == 0 {
                1
            } else {
                0
            };
            assert(masks@.take(n as int + 1).drop_last() =~= masks@.take(n as int));
            total = total + w;
            n += 1;
        }
        assert(masks@.take(n as int) =~= masks@);
        total
    }

    /// The counting score of the cell `index` for the player to move.
    fn count_policy(&self, table: &LineTable, index: usize) -> (r: usize)
        requires
            self.wf(),
            table.wf(),
            index < 64,
        ensures
            r == count_sum(
                self.word(self.mover()),
                self.word(self.mover().other()),
                self.word(Player::Black) | self.word(Player::White),
                line_masks(index as int),
            ),
            r <= 104,
    {
        let mine = self.boards[player_index(self.next_player)];
        let theirs = self.boards[player_index(self.next_player.next_player())];
        let all = self.boards[0] | self.boards[1];
        let masks = table.masks_of(index);
        let mut total: usize = 0;
        let mut n: usize = 0;
        proof {
            lemma_masks_len(index as int, 13);
        }
        while n < masks.len()
            invariant
                n <= masks@.len(),
                masks@.len() <= 13,
                total == count_sum(mine, theirs, all, masks@.take(n as int)),
                total <= 8 * n,
            decreases masks@.len() - n,
        {
            let m = masks[n];
            let a = mine & m;
            let b = theirs & m;
            let w: usize = if (a == 0 && b != 0) || (a != 0 && b == 0) {
                let ones = count_ones(a) + count_ones(b);
                if ones == 1 {
                    2
                } else {
                    let last = (!a & m) & (!b & m);
                    if last & LAYER_ONE != 0 || all & (last >> 16u64) != 0 {
                        1
                    } else if last & LAYER_THREE != 0 {
                        8
                    } else {
                        5
                    }
                }
            } else if a == 0 && b == 0 {
                1
            } else {
                0
            };
            assert(masks@.take(n as int + 1).drop_last() =~= masks@.take(n as int));
            total = total + w;
            n += 1;
        }
        assert(masks@.take(n as int) =~= masks@);
        total
    }

    /// Like `put`, and also the simple score of the cell the piece lands in,
    /// taken on the board before the move.
    pub fn put_with_simple_policy(&self, table: &LineTable, index_2d: usize) -> (r: Option<(Self, usize)>)
        requires
            self.wf(),
            table.wf(),
            index_2d < 16,
        ensures
            r.is_none() <==> landing(self.cells(), index_2d as int).is_none(),
            r matches Some((b, s)) ==> {
                let k = landing(self.cells(), index_2d as int).unwrap() as int;
                &&& b.wf()
                &&& b.cells() == dropped(self.cells(), index_2d as int, k, self.mover())
                &&& b.mover() == self.mover().other()
                &&& s == simple_sum(
                    self.word(self.mover()),
                    self.word(self.mover().other()),
                    line_masks(k * 16 + index_2d),
                )
                &&& s <= 26
            },
    {
        proof {
            lemma_first_empty(self.cells(), index_2d as int, 0);
        }
        let index = match self.find_index(index_2d) {
            Some(index) => index,
            None => return None,
        };
        Some((self.put_without_check(index), self.simple_policy(table, index)))
    }

    /// Like `put`, and also the counting score of the cell the piece lands
    /// in, taken on the board before the move.
    pub fn put_with_count_policy(&self, table: &LineTable, index_2d: usize) -> (r: Option<(Self, usize)>)
        requires
            self.wf(),
            table.wf(),
            index_2d < 16,
        ensures
            r.is_none() <==> landing(self.cells(), index_2d as int).is_none(),
            r matches Some((b, s)) ==> {
                let k = landing(self.cells(), index_2d as int).unwrap() as int;
                &&& b.wf()
                &&& b.cells() == dropped(self.cells(), index_2d as int, k, self.mover())
                &&& b.mover() == self.mover().other()
                &&& s == count_sum(
                    self.word(self.mover()),
                    self.word(self.mover().other()),
                    self.word(Player::Black) | self.word(Player::White),
                    line_masks(k * 16 + index_2d),
                )
                &&& s <= 104
            },
    {
        proof {
            lemma_first_empty(self.cells(), index_2d as int, 0);
        }
        let index = match self.find_index(index_2d) {
            Some(index) => index,
            None => return None,
        };
        Some((self.put_without_check(index), self.count_policy(table, index)))
    }
}

/// The array board and the bitboard answer alike. Two boards with the same
/// cells and the same player to move agree on whether the cube is full, on
/// which columns can be played, and on the first winning column of either
/// player; and one move in the same column on both leads again to the same
/// cells and the same player to move. So along any sequence of moves from
/// the empty board the two agree at every step.
pub proof fn lemma_representations_agree(a: Board, b: BitBoard, c: int)
    requires
        a.cells() == b.cells(),
        a.mover() == b.mover(),
        0 <= c < 16,
    ensures
        all_occupied(a.cells()) == all_occupied(b.cells()),
        landing(a.cells(), c) == landing(b.cells(), c),
        winning_column(a.cells(), a.mover().piece()) == winning_column(b.cells(), b.mover().piece()),
        winning_column(a.cells(), a.mover().other().piece()) == winning_column(
            b.cells(),
            b.mover().other().piece(),
        ),
        landing(a.cells(), c) matches Some(k) ==> dropped(a.cells(), c, k as int, a.mover())
            == dropped(b.cells(), c, k as int, b.mover()) && a.mover().other() == b.mover().other(),
{
}

} // verus!
