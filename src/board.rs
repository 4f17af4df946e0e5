use vstd::prelude::*;

use crate::lines::{
    applies, applies_exec, line_cell, line_cell_exec, own_param, own_param_exec,
    N_DIRS,
};

verus! {

/// What a cell holds. Black moves first.
#[derive(Default, Clone, Copy, PartialEq, Eq, Debug, Structural)]
pub enum Piece {
    #[default]
    Empty,
    Black,
    White,
}

/// The two players.
#[derive(Clone, Copy, PartialEq, Eq, Debug, Structural)]
pub enum Player {
    Black,
    White,
}

impl Player {
    pub open spec fn other(self) -> Player {
        match self {
            Player::Black => Player::White,
            Player::White => Player::Black,
        }
    }

    pub open spec fn piece(self) -> Piece {
        match self {
            Player::Black => Piece::Black,
            Player::White => Piece::White,
        }
    }

    /// The player who moves after `self`.
    pub fn next_player(self) -> (r: Self)
        ensures
            r == self.other(),
    {
        match self {
            Player::Black => Player::White,
            Player::White => Player::Black,
        }
    }

    /// The piece that `self` places.
    pub fn to_piece(self) -> (r: Piece)
        ensures
            r == self.piece(),
    {
        match self {
            Player::Black => Piece::Black,
            Player::White => Piece::White,
        }
    }
}

/// The lowest empty height of column `c` at or above `k`, if any.
pub open spec fn first_empty_from(cells: Seq<Piece>, c: int, k: int) -> Option<usize>
    decreases 4 - k,
{
    if k < 0 || k >= 4 {
        None
    } else if cells[k * 16 + c] == Piece::Empty {
        Some(k as usize)
    } else {
        first_empty_from(cells, c, k + 1)
    }
}

/// The height at which a piece dropped into column `c` comes to rest, or
/// `None` when the column is full.
pub open spec fn landing(cells: Seq<Piece>, c: int) -> Option<usize> {
    first_empty_from(cells, c, 0)
}

/// What `first_empty_from` finds: an empty cell with only occupied cells
/// between `k` and it, or, when it finds none, only occupied cells from `k` up.
pub proof fn lemma_first_empty(cells: Seq<Piece>, c: int, k: int)
    requires
        0 <= k,
    ensures
        match first_empty_from(cells, c, k) {
            Some(r) => k <= r < 4 && cells[r * 16 + c] == Piece::Empty && forall|s: int|
                k <= s < r ==> #[trigger] cells[s * 16 + c] != Piece::Empty,
            None => forall|s: int| k <= s < 4 ==> #[trigger] cells[s * 16 + c] != Piece::Empty,
        },
    decreases 4 - k,
{
    if k < 4 && cells[k * 16 + c] != Piece::Empty {
        lemma_first_empty(cells, c, k + 1);
    }
}

/// The line of direction `d` through `(i, j, k)` exists and all of its cells
/// other than `(i, j, k)` hold `p`.
pub open spec fn line_owned(cells: Seq<Piece>, p: Piece, d: int, i: int, j: int, k: int) -> bool {
    &&& applies(d, i, j, k)
    &&& forall|t: int|
        0 <= t < 4 && t != own_param(d, i, j, k) ==> cells[#[trigger] line_cell(d, t, i, j, k)]
            == p
}

/// A piece `p` placed at `(i, j, k)` would complete a line of four.
pub open spec fn completes_line(cells: Seq<Piece>, p: Piece, i: int, j: int, k: int) -> bool {
    exists|d: int| 0 <= d < 13 && #[trigger] line_owned(cells, p, d, i, j, k)
}

/// Dropping a piece `p` into column `c` completes a line of four.
pub open spec fn wins_in_column(cells: Seq<Piece>, p: Piece, c: int) -> bool {
    match landing(cells, c) {
        Some(k) => completes_line(cells, p, c / 4, c % 4, k as int),
        None => false,
    }
}

/// The first column at or after `c` where `p` completes a line of four.
pub open spec fn first_win_from(cells: Seq<Piece>, p: Piece, c: int) -> Option<usize>
    decreases 16 - c,
{
    if c < 0 || c >= 16 {
        None
    } else if wins_in_column(cells, p, c) {
        Some(c as usize)
    } else {
        first_win_from(cells, p, c + 1)
    }
}

/// The first column, in row-major order, where `p` completes a line of four.
pub open spec fn winning_column(cells: Seq<Piece>, p: Piece) -> Option<usize> {
    first_win_from(cells, p, 0)
}

/// Every cell is occupied.
pub open spec fn all_occupied(cells: Seq<Piece>) -> bool {
    forall|x: int| 0 <= x < 64 ==> cells[x] != Piece::Empty
}

/// The cells after `p` drops a piece into column `c`, whose lowest empty
/// height is `k`.
pub open spec fn dropped(cells: Seq<Piece>, c: int, k: int, p: Player) -> Seq<Piece> {
    cells.update(k * 16 + c, p.piece())
}

/// The number of empty cells among the first `n`.
pub open spec fn empties_below(cells: Seq<Piece>, n: int) -> nat
    decreases n,
{
    if n <= 0 {
        0
    } else {
        empties_below(cells, n - 1) + if cells[n - 1] == Piece::Empty {
            1nat
        } else {
            0nat
        }
    }
}

/// The number of empty cells.
pub open spec fn empty_count(cells: Seq<Piece>) -> nat {
    empties_below(cells, 64)
}

/// Filling an empty cell leaves one empty cell fewer.
pub proof fn lemma_fill_count(cells: Seq<Piece>, x: int, p: Piece, n: int)
    requires
        0 <= x < cells.len(),
        0 <= n <= cells.len(),
        cells[x] == Piece::Empty,
        p != Piece::Empty,
    ensures
        empties_below(cells.update(x, p), n) + (if x < n {
            1nat
        } else {
            0nat
        }) == empties_below(cells, n),
    decreases n,
{
    if n > 0 {
        lemma_fill_count(cells, x, p, n - 1);
    }
}

/// There are at most `n` empty cells among the first `n`.
pub proof fn lemma_empties_le(cells: Seq<Piece>, n: int)
    requires
        0 <= n,
    ensures
        empties_below(cells, n) <= n,
    decreases n,
{
    if n > 0 {
        lemma_empties_le(cells, n - 1);
    }
}

proof fn lemma_empties_pos(cells: Seq<Piece>, n: int, x: int)
    requires
        0 <= x < n,
        cells[x] == Piece::Empty,
    ensures
        empties_below(cells, n) > 0,
    decreases n,
{
    if x < n - 1 {
        lemma_empties_pos(cells, n - 1, x);
    }
}

/// A board with an empty cell counts at least one.
pub proof fn lemma_empty_count_pos(cells: Seq<Piece>)
    requires
        !all_occupied(cells),
    ensures
        empty_count(cells) > 0,
{
    let x = choose|x: int| 0 <= x < 64 && cells[x] != Piece::Empty == false;
    lemma_empties_pos(cells, 64, x);
}

/// The column `winning_column` names can be played.
pub proof fn lemma_winning_column_legal(cells: Seq<Piece>, p: Piece, c: int)
    requires
        0 <= c,
    ensures
        first_win_from(cells, p, c) matches Some(w) ==> c <= w < 16 && landing(
            cells,
            w as int,
        ).is_some(),
    decreases 16 - c,
{
    if c < 16 && !wins_in_column(cells, p, c) {
        lemma_winning_column_legal(cells, p, c + 1);
    }
}

/// No column of a full board can be played.
pub proof fn lemma_full_no_landing(cells: Seq<Piece>, c: int)
    requires
        all_occupied(cells),
        0 <= c < 16,
    ensures
        landing(cells, c).is_none(),
{
    lemma_first_empty(cells, c, 0);
}

/// On a full board no player has a winning column.
pub proof fn lemma_full_no_win(cells: Seq<Piece>, p: Piece)
    requires
        all_occupied(cells),
    ensures
        winning_column(cells, p).is_none(),
{
    lemma_winning_column_legal(cells, p, 0);
    if let Some(w) = winning_column(cells, p) {
        lemma_full_no_landing(cells, w as int);
    }
}

/// A board with an empty cell has a column that can be played.
pub proof fn lemma_open_column(cells: Seq<Piece>)
    requires
        !all_occupied(cells),
    ensures
        exists|c: int| 0 <= c < 16 && #[trigger] landing(cells, c).is_some(),
{
    let x = choose|x: int| 0 <= x < 64 && cells[x] != Piece::Empty == false;
    let c = x % 16;
    let k = x / 16;
    assert(x == k * 16 + c);
    lemma_first_empty(cells, c, 0);
    assert(landing(cells, c).is_some());
}

/// No column has an empty cell below an occupied one.
pub open spec fn stacked(cells: Seq<Piece>) -> bool {
    forall|c: int, k: int|
        0 <= c < 16 && 0 <= k < 3 && #[trigger] cells[(k + 1) * 16 + c] != Piece::Empty ==> cells[k
            * 16 + c] != Piece::Empty
}

/// On a board without gaps, every cell below an occupied cell is occupied.
pub proof fn lemma_below_occupied(cells: Seq<Piece>, c: int, h: int, k: int)
    requires
        stacked(cells),
        0 <= c < 16,
        0 <= k <= h < 4,
        cells[h * 16 + c] != Piece::Empty,
    ensures
        cells[k * 16 + c] != Piece::Empty,
    decreases h - k,
{
    if k < h {
        assert(cells[((h - 1) + 1) * 16 + c] != Piece::Empty);
        lemma_below_occupied(cells, c, h - 1, k);
    }
}

/// A piece dropped into a column rests on the lowest empty cell of that
/// column: every cell below it is occupied and, on a board without gaps,
/// every cell above it is empty; and the move leaves no gap.
pub proof fn lemma_gravity(cells: Seq<Piece>, c: int, p: Player)
    requires
        cells.len() == 64,
        stacked(cells),
        0 <= c < 16,
        landing(cells, c).is_some(),
    ensures
        ({
            let k = landing(cells, c).unwrap() as int;
            &&& 0 <= k < 4
            &&& cells[k * 16 + c] == Piece::Empty
            &&& forall|h: int| 0 <= h < k ==> #[trigger] cells[h * 16 + c] != Piece::Empty
            &&& forall|h: int| k < h < 4 ==> #[trigger] cells[h * 16 + c] == Piece::Empty
            &&& stacked(dropped(cells, c, k, p))
        }),
{
    lemma_first_empty(cells, c, 0);
    let k = landing(cells, c).unwrap() as int;
    assert forall|h: int| k < h < 4 implies #[trigger] cells[h * 16 + c] == Piece::Empty by {
        if cells[h * 16 + c] != Piece::Empty {
            lemma_below_occupied(cells, c, h, k);
        }
    }
    let d = dropped(cells, c, k, p);
    assert forall|cc: int, kk: int|
        0 <= cc < 16 && 0 <= kk < 3 && #[trigger] d[(kk + 1) * 16 + cc] != Piece::Empty implies d[kk
            * 16 + cc] != Piece::Empty by {
        if cc == c {
            if kk + 1 == k {
            } else if kk + 1 < k {
                assert(cells[kk * 16 + c] != Piece::Empty);
            } else {
                assert(cells[(kk + 1) * 16 + c] == Piece::Empty);
            }
        } else {
            assert((kk + 1) * 16 + cc != k * 16 + c);
            assert(kk * 16 + cc != k * 16 + c);
            assert(cells[(kk + 1) * 16 + cc] != Piece::Empty);
        }
    }
}

/// The player to move changes with every move and comes back after two.
pub proof fn lemma_turn_alternation(p: Player)
    ensures
        p.other() != p,
        p.other().other() == p,
        p.other().piece() != p.piece(),
{
}

/// The cube as a plain array: one array of four heights per column.
#[derive(Clone, Copy, Debug)]
pub struct Board {
    board: [[Piece; 4]; 16],
    next_player: Player,
}

impl Board {
    /// The 64 cells, indexed by `height * 16 + column`.
    pub closed spec fn cells(&self) -> Seq<Piece> {
        Seq::new(64, |x: int| self.board@[x % 16]@[x / 16])
    }

    pub closed spec fn mover(&self) -> Player {
        self.next_player
    }

    pub proof fn lemma_len(&self)
        ensures
            self.cells().len() == 64,
    {
    }

    /// An empty board with Black to move.
    pub fn new() -> (r: Board)
        ensures
            r.cells().len() == 64,
            forall|x: int| 0 <= x < 64 ==> r.cells()[x] == Piece::Empty,
            r.mover() == Player::Black,
    {
        Board { board: [[Piece::Empty; 4]; 16], next_player: Player::Black }
    }

    /// The player to move.
    pub fn next_player(&self) -> (r: Player)
        ensures
            r == self.mover(),
    {
        self.next_player
    }

    /// Sets the player to move.
    pub fn set_next_player(&mut self, player: Player)
        ensures
            final(self).cells() == old(self).cells(),
            final(self).mover() == player,
    {
        self.next_player = player;
    }

    /// What cell `index` holds.
    pub fn cell(&self, index: usize) -> (r: Piece)
        requires
            index < 64,
        ensures
            r == self.cells()[index as int],
    {
        self.board[index % 16][index / 16]
    }

    /// Writes `piece` at height `k` of column `index`, whatever stands around it.
    pub fn set_piece(&mut self, index: usize, k: usize, piece: Piece)
        requires
            index < 16,
            k < 4,
        ensures
            final(self).cells() == old(self).cells().update(k * 16 + index, piece),
            final(self).mover() == old(self).mover(),
    {
        let mut column = self.board[index];
        column[k] = piece;
        self.board[index] = column;
        assert(self.cells() =~= old(self).cells().update(k * 16 + index, piece));
    }

    /// The lowest empty height of column `index`, or `None` when it is full.
    pub fn find_index(&self, index: usize) -> (r: Option<usize>)
        requires
            index < 16,
        ensures
            r == landing(self.cells(), index as int),
    {
        let mut k: usize = 0;
        while k < 4
            invariant
                k <= 4,
                index < 16,
                landing(self.cells(), index as int) == first_empty_from(
                    self.cells(),
                    index as int,
                    k as int,
                ),
            decreases 4 - k,
        {
            assert(self.cells()[k * 16 + index] == self.board@[index as int]@[k as int]);
            if self.board[index][k] == Piece::Empty {
                return Some(k);
            }
            k += 1;
        }
        None
    }

    /// The board after the player to move drops a piece into column `index`,
    /// or `None` when that column is full.
    pub fn put(&self, index: usize) -> (r: Option<Self>)
        requires
            index < 16,
        ensures
            r.is_none() <==> landing(self.cells(), index as int).is_none(),
            r matches Some(b) ==> b.cells() == dropped(
                self.cells(),
                index as int,
                landing(self.cells(), index as int).unwrap() as int,
                self.mover(),
            ) && b.mover() == self.mover().other(),
    {
        proof {
            lemma_first_empty(self.cells(), index as int, 0);
        }
        let k = match self.find_index(index) {
            Some(k) => k,
            None => return None,
        };
        let mut new_board = *self;
        new_board.set_piece(index, k, self.next_player.to_piece());
        new_board.next_player = self.next_player.next_player();
        Some(new_board)
    }

    /// Whether every cell is occupied.
    pub fn is_full(&self) -> (r: bool)
        ensures
            r == all_occupied(self.cells()),
    {
        let mut c: usize = 0;
        while c < 16
            invariant
                c <= 16,
                forall|x: int| 0 <= x < 64 && x % 16 < c ==> self.cells()[x] != Piece::Empty,
            decreases 16 - c,
        {
            let mut k: usize = 0;
            while k < 4
                invariant
                    c < 16,
                    k <= 4,
                    forall|x: int| 0 <= x < 64 && x % 16 < c ==> self.cells()[x] != Piece::Empty,
                    forall|kk: int| 0 <= kk < k ==> #[trigger] self.cells()[kk * 16 + c] != Piece::Empty,
                decreases 4 - k,
            {
                assert(self.cells()[k * 16 + c] == self.board@[c as int]@[k as int]);
                if self.board[c][k] == Piece::Empty {
                    return false;
                }
                k += 1;
            }
            assert forall|x: int| 0 <= x < 64 && x % 16 < c + 1 implies self.cells()[x]
                != Piece::Empty by {
                if x % 16 == c {
                    assert(x == (x / 16) * 16 + c);
                }
            }
            c += 1;
        }
        true
    }

    /// Whether the line of direction `d` through `(i, j, k)` holds `piece` on
    /// all of its cells other than `(i, j, k)`.
    fn line_owned_by(&self, piece: Piece, d: usize, i: usize, j: usize, k: usize) -> (r: bool)
        requires
            i < 4,
            j < 4,
            k < 4,
            applies(d as int, i as int, j as int, k as int),
        ensures
            r == line_owned(self.cells(), piece, d as int, i as int, j as int, k as int),
    {
        let own = own_param_exec(d, i, j, k);
        let mut t: usize = 0;
        while t < 4
            invariant
                i < 4,
                j < 4,
                k < 4,
                t <= 4,
                own == own_param(d as int, i as int, j as int, k as int),
                forall|s: int|
                    0 <= s < t && s != own ==> self.cells()[#[trigger] line_cell(
                        d as int,
                        s,
                        i as int,
                        j as int,
                        k as int,
                    )] == piece,
            decreases 4 - t,
        {
            if t != own {
                let x = line_cell_exec(d, t, i, j, k);
                assert(self.cells()[x as int] == self.board@[(x % 16) as int]@[(x / 16) as int]);
                if self.board[x % 16][x / 16] != piece {
                    return false;
                }
            }
            t += 1;
        }
        true
    }

    /// The first column, in row-major order, where `player` completes a line.
    fn win_index_player(&self, player: Player) -> (r: Option<usize>)
        ensures
            r == winning_column(self.cells(), player.piece()),
    {
        let piece = player.to_piece();
        let mut c: usize = 0;
        while c < 16
            invariant
                c <= 16,
                piece == player.piece(),
                winning_column(self.cells(), piece) == first_win_from(self.cells(), piece, c as int),
            decreases 16 - c,
        {
            let i = c / 4;
            let j = c % 4;
            proof {
                lemma_first_empty(self.cells(), c as int, 0);
            }
            if let Some(k) = self.find_index(c) {
                let mut d: usize = 0;
                while d < N_DIRS
                    invariant
                        c < 16,
                        i == c / 4,
                        j == c % 4,
                        k < 4,
                        d <= 13,
                        piece == player.piece(),
                        landing(self.cells(), c as int) == Some(k),
                        winning_column(self.cells(), piece) == first_win_from(
                            self.cells(),
                            piece,
                            c as int,
                        ),
                        forall|e: int|
                            0 <= e < d ==> !#[trigger] line_owned(
                                self.cells(),
                                piece,
                                e,
                                i as int,
                                j as int,
                                k as int,
                            ),
                    decreases 13 - d,
                {
                    if applies_exec(d, i, j, k) && self.line_owned_by(piece, d, i, j, k) {
                        assert(line_owned(self.cells(), piece, d as int, i as int, j as int, k as int));
                        assert(completes_line(self.cells(), piece, i as int, j as int, k as int));
                        assert(wins_in_column(self.cells(), piece, c as int));
                        assert(first_win_from(self.cells(), piece, c as int) == Some(c));
                        return Some(c);
                    }
                    d += 1;
                }
            }
            c += 1;
        }
        None
    }

    /// The first column where the player to move completes a line.
    pub fn win_index(&self) -> (r: Option<usize>)
        ensures
            r == winning_column(self.cells(), self.mover().piece()),
    {
        self.win_index_player(self.next_player)
    }

    /// The first column where the opponent of the player to move would
    /// complete a line: the column the player to move has to block.
    pub fn check_index(&self) -> (r: Option<usize>)
        ensures
            r == winning_column(self.cells(), self.mover().other().piece()),
    {
        self.win_index_player(self.next_player.next_player())
    }
}

} // verus!
