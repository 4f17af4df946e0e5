use vstd::arithmetic::power2::{
    lemma2_to64, lemma_pow2_strictly_increases, lemma_pow2_unfold, pow2,
};
use vstd::prelude::*;

use rand::rngs::StdRng;
use rayon::iter::{IntoParallelIterator, ParallelIterator};

use crate::bitboard::{count_sum, simple_sum, BitBoard};
use crate::board::{
    all_occupied, dropped, empty_count, landing, lemma_fill_count, lemma_first_empty,
    lemma_empties_le, lemma_empty_count_pos, lemma_full_no_landing, lemma_full_no_win,
    lemma_open_column, lemma_winning_column_legal,
    winning_column, Piece, Player,
};
use crate::lines::{line_masks, LineTable};

verus! {

#[verifier::external_type_specification]
#[verifier::external_body]
pub struct ExStdRng(StdRng);

/// Relies on rand's `SeedableRng::seed_from_u64`: a generator whose stream
/// is fixed by the seed.
#[verifier::external_body]
fn seeded_rng(seed: u64) -> StdRng {
    <StdRng as rand::SeedableRng>::seed_from_u64(seed)
}

/// Relies on rand's `Rng::gen_range`: a value drawn from `0..n`; it panics
/// only on an empty range.
#[verifier::external_body]
fn random_below(rng: &mut StdRng, n: usize) -> (r: usize)
    requires
        n > 0,
    ensures
        r < n,
{
    rand::Rng::gen_range(rng, 0..n)
}

/// Trials after which an unexpanded node grows its children.
pub const N_TRIAL_THRESHOLD: usize = 20;

/// One for the fixed-point scores: a score of `SCALE` stands for 1.
pub const SCALE: u128 = 65536;

/// The outcome of a playout, seen from the player to move where it started.
#[derive(Clone, Copy, PartialEq, Eq, Debug, Structural)]
pub enum McResult {
    Win,
    Lose,
    Draw,
}

impl McResult {
    pub open spec fn flip(self) -> McResult {
        match self {
            McResult::Win => McResult::Lose,
            McResult::Lose => McResult::Win,
            McResult::Draw => McResult::Draw,
        }
    }

    /// The same outcome seen from the other player.
    pub fn flipped(self) -> (r: McResult)
        ensures
            r == self.flip(),
    {
        match self {
            McResult::Win => McResult::Lose,
            McResult::Lose => McResult::Win,
            McResult::Draw => McResult::Draw,
        }
    }

    /// The outcome as (trials, wins, losses).
    pub fn counts(self) -> (r: (usize, usize, usize))
        ensures
            r == counts_of(self),
    {
        match self {
            McResult::Win => (1, 1, 0),
            McResult::Lose => (1, 0, 1),
            McResult::Draw => (1, 0, 0),
        }
    }
}

pub open spec fn counts_of(r: McResult) -> (usize, usize, usize) {
    match r {
        McResult::Win => (1, 1, 0),
        McResult::Lose => (1, 0, 1),
        McResult::Draw => (1, 0, 0),
    }
}

/// How a move is weighted before the search has data on it, and how much
/// that weight counts when a child is selected.
#[derive(Clone, Copy, PartialEq, Eq, Debug, Structural)]
pub enum Policy {
    /// Counts the open lines through the cell; exploration constant 1/10.
    Simple,
    /// Also tells threats from traps; exploration constant 1/5.
    Count,
    /// No weight; explores by `1.4 * sqrt(ln(parent trials) / trials)`.
    Ucb1,
}

impl Policy {
    /// Denominator of the exploration constant, whose numerator is 1.
    pub open spec fn c_den(self) -> nat {
        match self {
            Policy::Simple => 10,
            _ => 5,
        }
    }

    pub fn exploration_den(self) -> (r: u128)
        ensures
            r == self.c_den(),
    {
        match self {
            Policy::Simple => 10,
            _ => 5,
        }
    }

    /// The weight this policy gives to the piece landing in column `c` of
    /// `board`, whose lowest empty height is `k`.
    pub open spec fn weight(self, board: BitBoard, c: int, k: int) -> nat {
        let mine = board.word(board.mover());
        let theirs = board.word(board.mover().other());
        match self {
            Policy::Simple => simple_sum(mine, theirs, line_masks(k * 16 + c)),
            Policy::Count => count_sum(
                mine,
                theirs,
                board.word(Player::Black) | board.word(Player::White),
                line_masks(k * 16 + c),
            ),
            Policy::Ucb1 => 0,
        }
    }

    /// The board after the player to move drops a piece into column
    /// `index_2d`, with this policy's weight of that move; `None` when the
    /// column is full.
    pub fn put_with_policy(self, board: &BitBoard, table: &LineTable, index_2d: usize) -> (r:
        Option<(BitBoard, usize)>)
        requires
            board.wf(),
            table.wf(),
            index_2d < 16,
        ensures
            r.is_none() <==> landing(board.cells(), index_2d as int).is_none(),
            r matches Some((b, s)) ==> {
                let k = landing(board.cells(), index_2d as int).unwrap() as int;
                &&& b.wf()
                &&& b.cells() == dropped(board.cells(), index_2d as int, k, board.mover())
                &&& b.mover() == board.mover().other()
                &&& s == self.weight(*board, index_2d as int, k)
                &&& s <= 104
            },
    {
        match self {
            Policy::Simple => board.put_with_simple_policy(table, index_2d),
            Policy::Count => board.put_with_count_policy(table, index_2d),
            Policy::Ucb1 => match board.put(index_2d) {
                Some(b) => Some((b, 0)),
                None => None,
            },
        }
    }
}

/// `r` is the integer square root of `v`.
pub open spec fn is_isqrt(v: int, r: int) -> bool {
    0 <= r && r * r <= v < (r + 1) * (r + 1)
}

/// The integer square root of `v`.
pub open spec fn isqrt(v: int) -> int {
    choose|r: int| is_isqrt(v, r)
}

proof fn lemma_isqrt_unique(v: int, a: int, b: int)
    requires
        is_isqrt(v, a),
        is_isqrt(v, b),
    ensures
        a == b,
{
    if a < b {
        assert((a + 1) * (a + 1) <= b * b) by (nonlinear_arith)
            requires
                0 <= a < b,
        ;
    } else if b < a {
        assert((b + 1) * (b + 1) <= a * a) by (nonlinear_arith)
            requires
                0 <= b < a,
        ;
    }
}

/// The integer square root of `v`.
pub fn isqrt_exec(v: u128) -> (r: u64)
    ensures
        r == isqrt(v as int),
{
    let mut lo: u128 = 0;
    let mut hi: u128 = 0x1_0000_0000_0000_0000;
    assert(0x1_0000_0000_0000_0000int * 0x1_0000_0000_0000_0000int
        == 0x1_0000_0000_0000_0000_0000_0000_0000_0000int);
    while hi - lo > 1
        invariant
            lo < hi <= 0x1_0000_0000_0000_0000,
            lo * lo <= v,
            v < hi * hi,
        decreases hi - lo,
    {
        let mid = lo + (hi - lo) / 2;
        assert(mid * mid < 0x1_0000_0000_0000_0000_0000_0000_0000_0000int) by (nonlinear_arith)
            requires
                mid < 0x1_0000_0000_0000_0000int,
        ;
        if mid * mid <= v {
            lo = mid;
        } else {
            hi = mid;
        }
    }
    proof {
        assert(is_isqrt(v as int, lo as int));
        lemma_isqrt_unique(v as int, lo as int, isqrt(v as int));
    }
    lo as u64
}

/// The part of the selection score that favours children bad for their own
/// player to move: `SCALE * (1 - win rate)` with draws counted as half a win.
pub open spec fn exploit(n: int, w: int, l: int) -> int {
    (SCALE * (n - w + l)) / (2 * n)
}

/// The part of the selection score that favours children with a high policy
/// weight and few trials: `SCALE * c * weight * sqrt(parent) / n`.
pub open spec fn explore(policy: Policy, weight: int, parent: int, n: int) -> int {
    (weight * isqrt(parent * SCALE * SCALE)) / (policy.c_den() * n)
}

/// The halvings that bring `y` below `2 * SCALE`.
pub open spec fn halvings(y: nat) -> nat
    decreases y,
{
    if y >= 131072 {
        1 + halvings(y / 2)
    } else {
        0
    }
}

/// `y` halved until it is below `2 * SCALE`.
pub open spec fn normalized(y: nat) -> nat
    decreases y,
{
    if y >= 131072 {
        normalized(y / 2)
    } else {
        y
    }
}

/// `acc` followed by the next `bits` binary digits of the base-2 logarithm of
/// `y / SCALE`, a number in `[1, 2)`: squaring it gives the next digit, which
/// is 1 when the square reaches 2.
pub open spec fn log2_digits(y: nat, bits: nat, acc: nat) -> nat
    decreases bits,
{
    if bits == 0 {
        acc
    } else {
        let sq = (y * y) / 65536;
        if sq >= 131072 {
            log2_digits(sq / 2, (bits - 1) as nat, 2 * acc + 1)
        } else {
            log2_digits(sq, (bits - 1) as nat, 2 * acc)
        }
    }
}

/// `SCALE * log2(n)` to sixteen binary digits: the whole part counts the
/// halvings of `n * SCALE`, the fraction is read off what is left.
pub open spec fn log2_fixed(n: nat) -> nat {
    halvings(n * 65536) * 65536 + log2_digits(normalized(n * 65536), 16, 0)
}

/// `SCALE * ln(n)`: `SCALE * log2(n)` times `ln 2`, which is 45426 / SCALE.
pub open spec fn ln_fixed(n: nat) -> nat {
    (log2_fixed(n) * 45426) / 65536
}

/// The exploration term of UCB1: `SCALE * 1.4 * sqrt(ln(parent) / n)`.
pub open spec fn ucb_explore(parent: nat, n: int) -> int {
    isqrt((196 * 65536 * (ln_fixed(parent) as int)) / (100 * n))
}

/// The selection score of a child with `n` trials, `w` wins and `l` losses
/// when its parent has had `parent` trials.
pub open spec fn select_score(policy: Policy, weight: int, parent: int, n: int, w: int, l: int) -> int {
    match policy {
        Policy::Ucb1 => exploit(n, w, l) + ucb_explore(parent as nat, n),
        _ => exploit(n, w, l) + explore(policy, weight, parent, n),
    }
}

/// `SCALE * ln(n)`, see `ln_fixed`.
pub fn ln_fixed_exec(n: u64) -> (r: u128)
    ensures
        r == ln_fixed(n as nat),
        r <= 0x1_0000_0000_0000_0000_0000_0000,
{
    let ghost y0: nat = (n as nat) * 65536;
    let mut y: u128 = (n as u128) * 65536;
    let mut ip: u128 = 0;
    while y >= 131072
        invariant
            ip * 65536 + y <= y0,
            y0 == (n as nat) * 65536,
            halvings(y0) == ip + halvings(y as nat),
            normalized(y0) == normalized(y as nat),
        decreases y,
    {
        y = y / 2;
        ip = ip + 1;
    }
    let mut frac: u128 = 0;
    let mut b: u128 = 0;
    proof {
        lemma2_to64();
    }
    while b < 16
        invariant
            b <= 16,
            y < 131072,
            frac < pow2(b as nat),
            log2_digits(y as nat, (16 - b) as nat, frac as nat) == log2_digits(normalized(y0), 16, 0),
            pow2(16) == 65536,
        decreases 16 - b,
    {
        proof {
            lemma_pow2_unfold((b + 1) as nat);
            if b + 1 < 16 {
                lemma_pow2_strictly_increases((b + 1) as nat, 16);
            }
            assert(y * y < 131072 * 131072) by (nonlinear_arith)
                requires
                    y < 131072,
            ;
        }
        let sq = y * y / 65536;
        if sq >= 131072 {
            y = sq / 2;
            frac = 2 * frac + 1;
        } else {
            y = sq;
            frac = 2 * frac;
        }
        b = b + 1;
    }
    assert(ip * 65536 <= 0x1_0000_0000_0000_0000_0000);
    let log2 = ip * 65536 + frac;
    log2 * 45426 / 65536
}

/// Drops a piece of the player to move into the playable column `c`.
fn play(board: &BitBoard, c: usize) -> (r: BitBoard)
    requires
        board.wf(),
        c < 16,
        landing(board.cells(), c as int).is_some(),
    ensures
        r.wf(),
        r.cells() == dropped(
            board.cells(),
            c as int,
            landing(board.cells(), c as int).unwrap() as int,
            board.mover(),
        ),
        r.mover() == board.mover().other(),
        empty_count(r.cells()) < empty_count(board.cells()),
{
    proof {
        let k = landing(board.cells(), c as int).unwrap() as int;
        lemma_first_empty(board.cells(), c as int, 0);
        board.lemma_len();
        lemma_fill_count(board.cells(), k * 16 + c, board.mover().piece(), 64);
    }
    match board.put(c) {
        Some(b) => b,
        None => *board,
    }
}

/// The playable columns below `n`, in increasing order.
pub open spec fn open_columns_below(cells: Seq<Piece>, n: int) -> Seq<int>
    decreases n,
{
    if n <= 0 {
        seq![]
    } else if landing(cells, n - 1).is_some() {
        open_columns_below(cells, n - 1).push(n - 1)
    } else {
        open_columns_below(cells, n - 1)
    }
}

/// The playable columns, in increasing order.
pub open spec fn open_columns(cells: Seq<Piece>) -> Seq<int> {
    open_columns_below(cells, 16)
}

proof fn lemma_open_columns_below(cells: Seq<Piece>, n: int)
    requires
        0 <= n <= 16,
    ensures
        open_columns_below(cells, n).len() <= n,
        forall|i: int|
            0 <= i < open_columns_below(cells, n).len() ==> 0 <= #[trigger] open_columns_below(
                cells,
                n,
            )[i] < n && landing(cells, open_columns_below(cells, n)[i]).is_some(),
        (exists|c: int| 0 <= c < n && #[trigger] landing(cells, c).is_some()) ==> open_columns_below(
            cells,
            n,
        ).len() > 0,
    decreases n,
{
    if n > 0 {
        lemma_open_columns_below(cells, n - 1);
        let prev = open_columns_below(cells, n - 1);
        if landing(cells, n - 1).is_some() {
            assert(open_columns_below(cells, n) == prev.push(n - 1));
            assert forall|i: int| 0 <= i < open_columns_below(cells, n).len() implies 0
                <= #[trigger] open_columns_below(cells, n)[i] < n && landing(
                cells,
                open_columns_below(cells, n)[i],
            ).is_some() by {
                if i < prev.len() {
                    assert(open_columns_below(cells, n)[i] == prev[i]);
                }
            }
        } else {
            assert(open_columns_below(cells, n) == prev);
        }
    }
}

/// The playable columns of `board`, in increasing order.
pub fn open_column_list(board: &BitBoard) -> (r: Vec<usize>)
    requires
        board.wf(),
    ensures
        r@.len() == open_columns(board.cells()).len(),
        forall|i: int| 0 <= i < r@.len() ==> #[trigger] r@[i] as int == open_columns(board.cells())[i],
{
    let ghost cells = board.cells();
    let mut r: Vec<usize> = Vec::new();
    let mut c: usize = 0;
    while c < 16
        invariant
            board.wf(),
            cells == board.cells(),
            c <= 16,
            r@.len() == open_columns_below(cells, c as int).len(),
            forall|i: int|
                0 <= i < r@.len() ==> #[trigger] r@[i] as int == open_columns_below(cells, c as int)[i],
        decreases 16 - c,
    {
        let ghost prev = r@;
        if board.find_index(c).is_some() {
            r.push(c);
        }
        proof {
            if landing(cells, c as int).is_some() {
                assert(open_columns_below(cells, c as int + 1) == open_columns_below(cells, c as int).push(c as int));
            } else {
                assert(open_columns_below(cells, c as int + 1) == open_columns_below(cells, c as int));
            }
            assert forall|i: int| 0 <= i < r@.len() implies #[trigger] r@[i] as int
                == open_columns_below(cells, c as int + 1)[i] by {
                if i < prev.len() {
                    assert(r@[i] == prev[i]);
                }
            }
        }
        c += 1;
    }
    r
}

/// The column a playout plays on `cells` with `mover` to move, given a draw:
/// the blocking column when the opponent threatens to complete a line, and
/// otherwise the open column at position `draw` modulo their number.
pub open spec fn rollout_choice(cells: Seq<Piece>, mover: Player, draw: usize) -> int {
    match winning_column(cells, mover.other().piece()) {
        Some(c) => c as int,
        None => open_columns(cells)[(draw as int) % (open_columns(cells).len() as int)],
    }
}

/// The outcome, seen from `me`, of the playout from `cells` with `mover` to
/// move whose plies take their draws from `draws` in turn: a draw on a full
/// board; on a board where the player to move can complete a line, a win for
/// that player; otherwise the playout goes on after `rollout_choice`. (Once
/// the draws run out it stops as a draw; `playout_with` always gives enough.)
pub open spec fn playout(cells: Seq<Piece>, mover: Player, me: Player, draws: Seq<usize>) -> McResult
    decreases draws.len(),
{
    if all_occupied(cells) {
        McResult::Draw
    } else if winning_column(cells, mover.piece()).is_some() {
        if mover == me {
            McResult::Win
        } else {
            McResult::Lose
        }
    } else if draws.len() == 0 {
        McResult::Draw
    } else {
        let c = rollout_choice(cells, mover, draws[0]);
        playout(
            dropped(cells, c, landing(cells, c).unwrap() as int, mover),
            mover.other(),
            me,
            draws.drop_first(),
        )
    }
}

/// Draws lie in `0..DRAW_RANGE`, a multiple of every number of open columns
/// from 1 to 16, so that a draw modulo that number is uniform.
pub const DRAW_RANGE: usize = 720720;

/// The column a playout plays next on `board`, given a draw: the blocking
/// column when the opponent threatens to complete a line, and otherwise the
/// open column at position `draw` (modulo their number).
pub fn rollout_column(board: &BitBoard, table: &LineTable, draw: usize) -> (r: usize)
    requires
        board.wf(),
        table.wf(),
        !all_occupied(board.cells()),
    ensures
        r < 16,
        landing(board.cells(), r as int).is_some(),
        r == rollout_choice(board.cells(), board.mover(), draw),
{
    proof {
        lemma_open_column(board.cells());
        lemma_open_columns_below(board.cells(), 16);
        lemma_winning_column_legal(board.cells(), board.mover().other().piece(), 0);
    }
    match board.check_index(table) {
        Some(c) => c,
        None => {
            let open = open_column_list(board);
            open[draw % open.len()]
        },
    }
}

/// The sum of the wins of a list of nodes.
pub open spec fn sum_wins(cs: Seq<McTreeLeaf>) -> nat
    decreases cs.len(),
{
    if cs.len() == 0 {
        0
    } else {
        sum_wins(cs.drop_last()) + cs.last().wins()
    }
}

/// The sum of the losses of a list of nodes.
pub open spec fn sum_losses(cs: Seq<McTreeLeaf>) -> nat
    decreases cs.len(),
{
    if cs.len() == 0 {
        0
    } else {
        sum_losses(cs.drop_last()) + cs.last().losses()
    }
}

/// `c` is the child that policy `kind` grows for column `col` of `board`,
/// after its one playout: the position after the move, the weight of the
/// move, one trial, and no children of its own.
pub open spec fn grown_child(board: BitBoard, kind: Policy, col: int, c: McTreeLeaf) -> bool {
    let k = landing(board.cells(), col).unwrap() as int;
    &&& landing(board.cells(), col).is_some()
    &&& c.board().cells() == dropped(board.cells(), col, k, board.mover())
    &&& c.board().mover() == board.mover().other()
    &&& c.weight() == kind.weight(board, col, k)
    &&& c.kind() == kind
    &&& c.trials() == 1
    &&& c.wins() + c.losses() <= 1
    &&& c.children().is_none()
}

/// What `expand` does to the node `before`, leaving `after` and returning
/// (trials, wins, losses) `r`, all seen from the node's player.
/// - The player to move can complete a line: one won trial, nothing grown.
/// - In check: the blocking child alone, whose playout is the one trial.
/// - Otherwise a child for each open column, in order, each with one
///   playout; on a full board, no child and one drawn trial.
/// A child's lost playouts are the node's wins, and its won ones its losses.
pub open spec fn expand_post(before: McTreeLeaf, after: McTreeLeaf, r: (usize, usize, usize)) -> bool {
    let board = before.board();
    let cells = board.cells();
    let mover = board.mover();
    &&& after.board() == board
    &&& after.kind() == before.kind()
    &&& after.weight() == before.weight()
    &&& after.checked() == before.checked()
    &&& after.trials() == before.trials() + r.0
    &&& after.wins() == before.wins() + r.1
    &&& after.losses() == before.losses() + r.2
    &&& 1 <= r.0 <= 16
    &&& r.1 + r.2 <= r.0
    &&& if winning_column(cells, mover.piece()).is_some() {
        r == (1usize, 1usize, 0usize) && after.children() == before.children()
    } else {
        &&& after.children().is_some()
        &&& r.1 == sum_losses(after.children()->Some_0)
        &&& r.2 == sum_wins(after.children()->Some_0)
        &&& match winning_column(cells, mover.other().piece()) {
            Some(c) => {
                &&& after.children()->Some_0.len() == 1
                &&& r.0 == 1
                &&& grown_child(board, before.kind(), c as int, after.children()->Some_0[0])
            },
            None => {
                let cs = after.children()->Some_0;
                &&& cs.len() == open_columns(cells).len()
                &&& forall|i: int|
                    0 <= i < cs.len() ==> #[trigger] grown_child(
                        board,
                        before.kind(),
                        open_columns(cells)[i],
                        cs[i],
                    )
                &&& cs.len() > 0 ==> r.0 == cs.len()
                &&& cs.len() == 0 ==> r == (1usize, 0usize, 0usize)
            },
        }
    }
}

/// The selection score of a child node under a parent with `parent` trials.
pub open spec fn leaf_score(c: McTreeLeaf, parent: int) -> int {
    select_score(c.kind(), c.weight() as int, parent, c.trials() as int, c.wins() as int, c.losses() as int)
}

/// The last position of a largest score among the first `n`.
pub open spec fn last_best(cs: Seq<McTreeLeaf>, parent: int, n: int) -> int
    decreases n,
{
    if n <= 1 {
        0
    } else {
        let b = last_best(cs, parent, n - 1);
        if leaf_score(cs[n - 1], parent) >= leaf_score(cs[b], parent) {
            n - 1
        } else {
            b
        }
    }
}

/// A node of the search tree: a position, the playouts run through it, and
/// its children once it has grown them.
pub struct McTreeLeaf {
    current_board: BitBoard,
    n_trial: usize,
    n_win: usize,
    n_lose: usize,
    policy: usize,
    leaves: Option<Vec<McTreeLeaf>>,
    is_checked: bool,
    kind: Policy,
}

impl McTreeLeaf {
    pub closed spec fn board(&self) -> BitBoard {
        self.current_board
    }

    pub closed spec fn trials(&self) -> nat {
        self.n_trial as nat
    }

    pub closed spec fn wins(&self) -> nat {
        self.n_win as nat
    }

    pub closed spec fn losses(&self) -> nat {
        self.n_lose as nat
    }

    /// The policy weight of the move that led here.
    pub closed spec fn weight(&self) -> nat {
        self.policy as nat
    }

    pub closed spec fn kind(&self) -> Policy {
        self.kind
    }

    /// The opponent of the player to move can complete a line next move.
    pub closed spec fn checked(&self) -> bool {
        self.is_checked
    }

    pub closed spec fn children(&self) -> Option<Seq<McTreeLeaf>> {
        match &self.leaves {
            Some(v) => Some(v@),
            None => None,
        }
    }

    /// `c` may stand as a child of a node with this position, trial count and
    /// policy: its position follows by one move, it has run at least one
    /// playout and no more than its parent.
    pub open spec fn child_ok(board: BitBoard, trials: nat, kind: Policy, c: McTreeLeaf) -> bool {
        &&& exists|col: int|
            0 <= col < 16 && #[trigger] landing(board.cells(), col).is_some() && c.board().cells()
                == dropped(board.cells(), col, landing(board.cells(), col).unwrap() as int, board.mover())
        &&& c.board().mover() == board.mover().other()
        &&& 1 <= c.trials() <= trials
        &&& c.kind() == kind
    }

    /// Counts add up, the check flag is right, and every child is well formed.
    pub closed spec fn wf(&self) -> bool
        decreases self,
    {
        &&& self.current_board.wf()
        &&& self.n_win + self.n_lose <= self.n_trial
        &&& self.policy <= 104
        &&& self.is_checked == winning_column(
            self.current_board.cells(),
            self.current_board.mover().other().piece(),
        ).is_some()
        &&& self.leaves is Some ==> forall|i: int|
            0 <= i < self.leaves->Some_0@.len() ==> #[trigger] Self::child_ok(
                self.current_board,
                self.n_trial as nat,
                self.kind,
                self.leaves->Some_0@[i],
            ) && self.leaves->Some_0@[i].wf()
    }

    /// A fresh node for `board`, reached by a move of weight `policy`.
    pub fn new(board: BitBoard, policy: usize, kind: Policy, table: &LineTable) -> (r: Self)
        requires
            board.wf(),
            table.wf(),
            policy <= 104,
        ensures
            r.wf(),
            r.board() == board,
            r.weight() == policy,
            r.kind() == kind,
            r.trials() == 0,
            r.wins() == 0,
            r.losses() == 0,
            r.children().is_none(),
            r.checked() == winning_column(board.cells(), board.mover().other().piece()).is_some(),
    {
        McTreeLeaf {
            is_checked: board.check_index(table).is_some(),
            current_board: board,
            n_trial: 0,
            n_win: 0,
            n_lose: 0,
            policy,
            leaves: None,
            kind,
        }
    }

    /// Plays one random game from this node to its end, answering every
    /// check, and records its outcome.
    fn run(&mut self, table: &LineTable, rng: &mut StdRng) -> (r: McResult)
        requires
            old(self).wf(),
            table.wf(),
            old(self).trials() + 16 <= usize::MAX,
        ensures
            final(self).wf(),
            final(self).board() == old(self).board(),
            final(self).kind() == old(self).kind(),
            final(self).weight() == old(self).weight(),
            final(self).children() == old(self).children(),
            final(self).trials() == old(self).trials() + 1,
            final(self).wins() == old(self).wins() + counts_of(r).1,
            final(self).losses() == old(self).losses() + counts_of(r).2,
            exists|d: Seq<usize>|
                d.len() >= empty_count(old(self).board().cells()) && #[trigger] playout(
                    old(self).board().cells(),
                    old(self).board().mover(),
                    old(self).board().mover(),
                    d,
                ) == r,
            !all_occupied(old(self).board().cells()) && winning_column(
                old(self).board().cells(),
                old(self).board().mover().piece(),
            ).is_some() ==> r == McResult::Win,
            all_occupied(old(self).board().cells()) ==> r == McResult::Draw,
    {
        let r = simulate(&self.current_board, table, rng);
        self.n_trial = self.n_trial + 1;
        match r {
            McResult::Win => self.n_win = self.n_win + 1,
            McResult::Lose => self.n_lose = self.n_lose + 1,
            McResult::Draw => {},
        }
        proof {
            self.lemma_raise_trials(*old(self));
        }
        r
    }

    /// A well-formed node has no more wins and losses than trials, and its
    /// children, once grown, are well formed and follow it by one move.
    pub proof fn lemma_wf_counts(&self)
        requires
            self.wf(),
        ensures
            self.wins() + self.losses() <= self.trials(),
            self.weight() <= 104,
            self.checked() == winning_column(
                self.board().cells(),
                self.board().mover().other().piece(),
            ).is_some(),
            self.children() is Some ==> forall|i: int|
                0 <= i < self.children()->Some_0.len() ==> #[trigger] Self::child_ok(
                    self.board(),
                    self.trials(),
                    self.kind(),
                    self.children()->Some_0[i],
                ) && self.children()->Some_0[i].wf(),
    {
        if self.leaves is Some {
            let cs = self.children()->Some_0;
            assert(cs == self.leaves->Some_0@);
            assert forall|i: int| 0 <= i < cs.len() implies #[trigger] Self::child_ok(
                self.board(),
                self.trials(),
                self.kind(),
                cs[i],
            ) && cs[i].wf() by {
                assert(Self::child_ok(
                    self.current_board,
                    self.n_trial as nat,
                    self.kind,
                    self.leaves->Some_0@[i],
                ));
            }
        }
    }

    /// The parts of `wf`, one by one.
    proof fn lemma_wf_intro(&self)
        requires
            self.current_board.wf(),
            self.n_win + self.n_lose <= self.n_trial,
            self.policy <= 104,
            self.is_checked == winning_column(
                self.current_board.cells(),
                self.current_board.mover().other().piece(),
            ).is_some(),
            self.leaves is Some ==> forall|i: int|
            0 <= i < self.leaves->Some_0@.len() ==> #[trigger] Self::child_ok(
                self.current_board,
                self.n_trial as nat,
                self.kind,
                self.leaves->Some_0@[i],
            ) && self.leaves->Some_0@[i].wf(),
        ensures
            self.wf(),
    {
    }

    /// Raising the counts of a node keeps it well formed.
    #[verifier::spinoff_prover]
    proof fn lemma_raise_trials(&self, before: McTreeLeaf)
        requires
            before.wf(),
            self.current_board == before.current_board,
            self.is_checked == before.is_checked,
            self.leaves == before.leaves,
            self.kind == before.kind,
            self.policy == before.policy,
            self.n_trial >= before.n_trial,
            self.n_win + self.n_lose <= self.n_trial,
        ensures
            self.wf(),
    {
        if let Some(cs) = &self.leaves {
            assert forall|i: int| 0 <= i < cs@.len() implies #[trigger] Self::child_ok(
                self.current_board,
                self.n_trial as nat,
                self.kind,
                cs@[i],
            ) && cs@[i].wf() by {
                assert(Self::child_ok(before.current_board, before.n_trial as nat, before.kind, cs@[i]));
                assert(cs@[i].wf());
            }
        }
        assert(self.current_board.wf());
        assert(self.n_win + self.n_lose <= self.n_trial);
        assert(self.leaves is Some ==> forall|i: int|
            0 <= i < self.leaves->Some_0@.len() ==> #[trigger] Self::child_ok(
                self.current_board,
                self.n_trial as nat,
                self.kind,
                self.leaves->Some_0@[i],
            ) && self.leaves->Some_0@[i].wf());
        assert(self.policy <= 104);
        assert(self.is_checked == winning_column(
            self.current_board.cells(),
            self.current_board.mover().other().piece(),
        ).is_some());
        self.lemma_wf_intro();
    }

    /// The selection score of this node when its parent has had `n_try`
    /// trials: `SCALE` times `(1 - win rate) + c * weight * sqrt(n_try) / trials`.
    pub fn select_rate(&self, n_try: usize) -> (r: u128)
        requires
            self.wf(),
            self.trials() > 0,
        ensures
            r == leaf_score(*self, n_try as int),
    {
        if let Policy::Ucb1 = self.kind {
            let n = self.n_trial as u128;
            let w = self.n_win as u128;
            let l = self.n_lose as u128;
            let ln = ln_fixed_exec(n_try as u64);
            proof {
                let ni = n as int;
                let wi = w as int;
                let li = l as int;
                assert((65536 * (ni - wi + li)) / (2 * ni) <= 65536) by (nonlinear_arith)
                    requires
                        0 <= wi <= ni,
                        0 <= li,
                        wi + li <= ni,
                        ni > 0,
                ;
                assert(12845056 * (ln as int) <= 12845056 * 0x1_0000_0000_0000_0000_0000_0000int) by (nonlinear_arith)
                    requires
                        0 <= ln <= 0x1_0000_0000_0000_0000_0000_0000int,
                ;
                assert((196 * 65536 * (ln as int)) / (100 * ni) <= 196 * 65536 * (ln as int)) by (nonlinear_arith)
                    requires
                        ni >= 1,
                        ln >= 0,
                ;
            }
            let exploit = (SCALE * (n - w + l)) / (2 * n);
            let explore = isqrt_exec((196 * 65536 * ln) / (100 * n));
            return exploit + (explore as u128);
        }
        let n = self.n_trial as u128;
        let w = self.n_win as u128;
        let l = self.n_lose as u128;
        let sq = isqrt_exec((n_try as u128) * SCALE * SCALE);
        proof {
            let ni = n as int;
            let wi = w as int;
            let li = l as int;
            let pi = self.policy as int;
            let si = sq as int;
            let di = self.kind.c_den() * ni;
            assert(self.kind.c_den() * ni <= 10 * 0x1_0000_0000_0000_0000) by (nonlinear_arith)
                requires
                    self.kind.c_den() <= 10,
                    0 < ni < 0x1_0000_0000_0000_0000,
            ;
            assert(di >= 1) by (nonlinear_arith)
                requires
                    di == self.kind.c_den() * ni,
                    self.kind.c_den() >= 1,
                    ni >= 1,
            ;
            assert((65536 * (ni - wi + li)) / (2 * ni) <= 65536) by (nonlinear_arith)
                requires
                    0 <= wi <= ni,
                    0 <= li,
                    wi + li <= ni,
                    ni > 0,
            ;
            assert((pi * si) / di <= pi * si) by (nonlinear_arith)
                requires
                    di >= 1,
                    pi >= 0,
                    si >= 0,
            ;
            assert(pi * si <= 104 * 0x1_0000_0000_0000_0000) by (nonlinear_arith)
                requires
                    0 <= pi <= 104,
                    0 <= si < 0x1_0000_0000_0000_0000,
            ;
        }
        let den = self.kind.exploration_den() * n;
        let exploit = (SCALE * (n - w + l)) / (2 * n);
        let explore = ((self.policy as u128) * (sq as u128)) / den;
        exploit + explore
    }

    /// Drops a piece into column `index` for a new child, runs one playout
    /// from it and records that playout here, seen from this node's player.
    /// `None`, with nothing changed, when the column is full.
    fn run_and_push(
        &mut self,
        index: usize,
        table: &LineTable,
        rng: &mut StdRng,
        cs: &mut Vec<McTreeLeaf>,
    ) -> (r: Option<McResult>)
        requires
            old(self).current_board.wf(),
            table.wf(),
            index < 16,
            old(self).n_trial < usize::MAX,
            old(self).n_win + old(self).n_lose <= old(self).n_trial,
        ensures
            final(self).current_board == old(self).current_board,
            final(self).kind == old(self).kind,
            final(self).policy == old(self).policy,
            final(self).is_checked == old(self).is_checked,
            final(self).leaves == old(self).leaves,
            final(self).n_win + final(self).n_lose <= final(self).n_trial,
            r.is_none() <==> landing(old(self).current_board.cells(), index as int).is_none(),
            r.is_none() ==> *final(self) == *old(self) && final(cs)@ == old(cs)@,
            r matches Some(res) ==> {
                &&& final(self).n_trial == old(self).n_trial + 1
                &&& final(self).n_win == old(self).n_win + counts_of(res).1
                &&& final(self).n_lose == old(self).n_lose + counts_of(res).2
                &&& final(cs)@.len() == old(cs)@.len() + 1
                &&& final(cs)@.drop_last() == old(cs)@
                &&& final(cs)@.last().wf()
                &&& grown_child(old(self).current_board, old(self).kind, index as int, final(cs)@.last())
                &&& final(cs)@.last().wins() == counts_of(res).2
                &&& final(cs)@.last().losses() == counts_of(res).1
            },
    {
        match self.kind.put_with_policy(&self.current_board, table, index) {
            Some((board, policy)) => {
                let mut leaf = McTreeLeaf::new(board, policy, self.kind, table);
                let result = leaf.run(table, rng).flipped();
                self.n_trial = self.n_trial + 1;
                match result {
                    McResult::Win => self.n_win = self.n_win + 1,
                    McResult::Lose => self.n_lose = self.n_lose + 1,
                    McResult::Draw => {},
                }
                cs.push(leaf);
                proof {
                    assert(cs@.drop_last() =~= old(cs)@);
                }
                Some(result)
            },
            None => None,
        }
    }

    /// Grows the children of this node and runs one playout from each; the
    /// returned (trials, wins, losses) are those playouts seen from this
    /// node's player. A node whose player to move can complete a line counts
    /// one won trial and grows nothing. A node in check grows only the child
    /// that blocks. A node on a full board grows no child and counts one
    /// drawn trial. See `expand_post`.
    pub fn expand(&mut self, table: &LineTable, rng: &mut StdRng) -> (r: (usize, usize, usize))
        requires
            old(self).wf(),
            table.wf(),
            old(self).trials() + 16 <= usize::MAX,
        ensures
            final(self).wf(),
            expand_post(*old(self), *final(self), r),
    {
        if self.current_board.win_index(table).is_some() {
            self.n_trial = self.n_trial + 1;
            self.n_win = self.n_win + 1;
            proof {
                self.lemma_raise_trials(*old(self));
            }
            return (1, 1, 0);
        }
        let ghost cells = self.current_board.cells();
        let mut cs: Vec<McTreeLeaf> = Vec::new();
        if let Some(index) = self.current_board.check_index(table) {
            proof {
                lemma_winning_column_legal(cells, self.current_board.mover().other().piece(), 0);
            }
            let result = self.run_and_push(index, table, rng, &mut cs);
            self.leaves = Some(cs);
            proof {
                assert(cs@.len() == 1);
                assert(cs@[0] == cs@.last());
                assert(cs@.drop_last() =~= Seq::<McTreeLeaf>::empty());
                assert(Self::child_ok(self.current_board, self.n_trial as nat, self.kind, cs@[0]));
                self.lemma_wf_intro();
                assert(cs@.drop_last() == Seq::<McTreeLeaf>::empty());
                assert(sum_losses(Seq::<McTreeLeaf>::empty()) == 0);
                assert(sum_wins(Seq::<McTreeLeaf>::empty()) == 0);
                assert(sum_losses(cs@) == cs@[0].losses());
                assert(sum_wins(cs@) == cs@[0].wins());
            }
            let r = match result {
                Some(res) => res.counts(),
                None => (0, 0, 0),
            };
            proof {
                assert(result.is_some());
                assert(self.children() == Some(cs@));
                assert(r.1 == sum_losses(cs@));
                assert(r.2 == sum_wins(cs@));
                assert(grown_child(old(self).current_board, self.kind, index as int, cs@[0]));
            }
            return r;
        }
        let mut n_trial: usize = 0;
        let mut n_win: usize = 0;
        let mut n_lose: usize = 0;
        let mut c: usize = 0;
        while c < 16
            invariant
                self.current_board == old(self).current_board,
                self.kind == old(self).kind,
                self.policy == old(self).policy,
                self.is_checked == old(self).is_checked,
                self.leaves == old(self).leaves,
                old(self).wf(),
                self.current_board.wf(),
                table.wf(),
                cells == self.current_board.cells(),
                c <= 16,
                n_trial == cs@.len(),
                n_trial <= c,
                n_win == sum_losses(cs@),
                n_lose == sum_wins(cs@),
                n_win + n_lose <= n_trial,
                self.n_trial == old(self).n_trial + n_trial,
                self.n_win == old(self).n_win + n_win,
                self.n_lose == old(self).n_lose + n_lose,
                old(self).n_trial + 16 <= usize::MAX,
                old(self).n_win + old(self).n_lose <= old(self).n_trial,
                cs@.len() == open_columns_below(cells, c as int).len(),
                forall|i: int|
                    0 <= i < cs@.len() ==> #[trigger] Self::child_ok(
                        self.current_board,
                        self.n_trial as nat,
                        self.kind,
                        cs@[i],
                    ) && cs@[i].wf(),
                forall|i: int|
                    0 <= i < cs@.len() ==> #[trigger] grown_child(
                        self.current_board,
                        self.kind,
                        open_columns_below(cells, c as int)[i],
                        cs@[i],
                    ),
            decreases 16 - c,
        {
            let ghost before = cs@;
            let ghost trials_before = self.n_trial;
            if let Some(result) = self.run_and_push(c, table, rng, &mut cs) {
                n_trial += 1;
                match result {
                    McResult::Win => n_win += 1,
                    McResult::Lose => n_lose += 1,
                    McResult::Draw => {},
                }
            }
            proof {
                assert(open_columns_below(cells, c as int + 1) == if landing(cells, c as int).is_some() {
                    open_columns_below(cells, c as int).push(c as int)
                } else {
                    open_columns_below(cells, c as int)
                });
                assert forall|i: int| 0 <= i < cs@.len() implies #[trigger] Self::child_ok(
                    self.current_board,
                    self.n_trial as nat,
                    self.kind,
                    cs@[i],
                ) && cs@[i].wf() by {
                    if i < before.len() {
                        assert(cs@[i] == before[i]);
                        assert(Self::child_ok(self.current_board, trials_before as nat, self.kind, before[i]));
                    } else {
                        assert(cs@[i] == cs@.last());
                        assert(landing(cells, c as int).is_some());
                    }
                }
                assert forall|i: int| 0 <= i < cs@.len() implies #[trigger] grown_child(
                    self.current_board,
                    self.kind,
                    open_columns_below(cells, c as int + 1)[i],
                    cs@[i],
                ) by {
                    if i < before.len() {
                        assert(cs@[i] == before[i]);
                        assert(open_columns_below(cells, c as int + 1)[i] == open_columns_below(
                            cells,
                            c as int,
                        )[i]);
                    } else {
                        assert(cs@[i] == cs@.last());
                        assert(open_columns_below(cells, c as int + 1)[i] == c as int);
                    }
                }
            }
            c += 1;
        }
        if n_trial == 0 {
            self.n_trial = self.n_trial + 1;
            self.leaves = Some(cs);
            proof {
                self.lemma_wf_intro();
            }
            return (1, 0, 0);
        }
        self.leaves = Some(cs);
        proof {
            self.lemma_wf_intro();
        }
        (n_trial, n_win, n_lose)
    }

    /// Position of the child with the largest selection score, the last
    /// such child on ties.
    fn best_leaf(cs: &Vec<McTreeLeaf>, n_try: usize) -> (r: usize)
        requires
            cs@.len() > 0,
            forall|i: int| #![trigger cs@[i]] 0 <= i < cs@.len() ==> cs@[i].wf() && cs@[i].trials() > 0,
        ensures
            r == last_best(cs@, n_try as int, cs@.len() as int),
            r < cs@.len(),
    {
        let mut best: usize = 0;
        let mut best_rate = cs[0].select_rate(n_try);
        let mut i: usize = 1;
        while i < cs.len()
            invariant
                1 <= i <= cs@.len(),
                forall|j: int| #![trigger cs@[j]] 0 <= j < cs@.len() ==> cs@[j].wf() && cs@[j].trials() > 0,
                best == last_best(cs@, n_try as int, i as int),
                best < i,
                best_rate == leaf_score(cs@[best as int], n_try as int),
            decreases cs@.len() - i,
        {
            let rate = cs[i].select_rate(n_try);
            if rate >= best_rate {
                best = i;
                best_rate = rate;
            }
            i += 1;
        }
        best
    }

    /// One step of the search from this node; returns the (trials, wins,
    /// losses) it adds here, seen from this node's player. A grown node
    /// descends into the child of best score and adds that child's counts
    /// with wins and losses swapped; a grown node without children counts a
    /// draw. A node not grown yet grows when it is in check or has had more
    /// than `N_TRIAL_THRESHOLD` trials, and otherwise runs one playout.
    pub fn select(&mut self, table: &LineTable, rng: &mut StdRng) -> (r: (usize, usize, usize))
        requires
            old(self).wf(),
            table.wf(),
            old(self).trials() + 16 <= usize::MAX,
        ensures
            final(self).wf(),
            final(self).board() == old(self).board(),
            final(self).kind() == old(self).kind(),
            final(self).weight() == old(self).weight(),
            final(self).trials() == old(self).trials() + r.0,
            final(self).wins() == old(self).wins() + r.1,
            final(self).losses() == old(self).losses() + r.2,
            r.1 + r.2 <= r.0 <= 16,
            old(self).children() matches Some(cs) ==> final(self).children() matches Some(fs)
                && fs.len() == cs.len() && (cs.len() == 0 ==> r == (1usize, 0usize, 0usize)),
            old(self).children().is_some() && old(self).children()->Some_0.len() > 0 ==> ({
                let cs = old(self).children()->Some_0;
                let k = last_best(cs, old(self).trials() as int, cs.len() as int);
                let fs = final(self).children()->Some_0;
                &&& final(self).children().is_some()
                &&& fs[k].board() == cs[k].board()
                &&& fs[k].trials() == cs[k].trials() + r.0
                &&& forall|i: int| 0 <= i < cs.len() && i != k ==> fs[i] == cs[i]
            }),
            old(self).children().is_none() && !old(self).checked() && old(self).trials()
                <= N_TRIAL_THRESHOLD ==> final(self).children().is_none() && r.0 == 1,
            final(self).wins() + final(self).losses() <= final(self).trials(),
            1 <= r.0,
            old(self).children().is_some() && old(self).children()->Some_0.len() > 0 ==> ({
                let cs = old(self).children()->Some_0;
                let k = last_best(cs, old(self).trials() as int, cs.len() as int);
                let fs = final(self).children()->Some_0;
                &&& fs[k].wins() == cs[k].wins() + r.2
                &&& fs[k].losses() == cs[k].losses() + r.1
            }),
            old(self).children().is_none() && (old(self).checked() || old(self).trials()
                > N_TRIAL_THRESHOLD) ==> expand_post(*old(self), *final(self), r),
            old(self).children().is_none() && !old(self).checked() && old(self).trials()
                <= N_TRIAL_THRESHOLD ==> exists|d: Seq<usize>|
                d.len() >= empty_count(old(self).board().cells()) && counts_of(
                    #[trigger] playout(
                        old(self).board().cells(),
                        old(self).board().mover(),
                        old(self).board().mover(),
                        d,
                    ),
                ) == r,
            all_occupied(old(self).board().cells()) ==> r == (1usize, 0usize, 0usize),
        decreases empty_count(old(self).board().cells()),
    {
        match self.leaves.take() {
            Some(mut cs) => {
                if cs.len() == 0 {
                    self.leaves = Some(cs);
                    self.n_trial = self.n_trial + 1;
                    proof {
                        self.lemma_raise_trials(*old(self));
                    }
                    return (1, 0, 0);
                }
                proof {
                    assert forall|i: int| #![trigger cs@[i]] 0 <= i < cs@.len() implies cs@[i].wf()
                        && cs@[i].trials() > 0 by {
                        assert(Self::child_ok(self.current_board, self.n_trial as nat, self.kind, cs@[i]));
                    }
                }
                proof {
                    if all_occupied(self.current_board.cells()) {
                        assert(Self::child_ok(self.current_board, self.n_trial as nat, self.kind, cs@[0]));
                        let col = choose|col: int|
                            0 <= col < 16 && #[trigger] landing(self.current_board.cells(), col).is_some()
                                && cs@[0].board().cells() == dropped(
                                self.current_board.cells(),
                                col,
                                landing(self.current_board.cells(), col).unwrap() as int,
                                self.current_board.mover(),
                            );
                        lemma_full_no_landing(self.current_board.cells(), col);
                    }
                }
                let k = Self::best_leaf(&cs, self.n_trial);
                let ghost before = cs@;
                let mut child = cs.remove(k);
                proof {
                    assert(child == before[k as int]);
                    assert(Self::child_ok(self.current_board, self.n_trial as nat, self.kind, child));
                    let cells = self.current_board.cells();
                    let col = choose|col: int|
                        0 <= col < 16 && #[trigger] landing(cells, col).is_some()
                            && child.board().cells() == dropped(
                            cells,
                            col,
                            landing(cells, col).unwrap() as int,
                            self.current_board.mover(),
                        );
                    let kk = landing(cells, col).unwrap() as int;
                    lemma_first_empty(cells, col, 0);
                    self.current_board.lemma_len();
                    lemma_fill_count(cells, kk * 16 + col, self.current_board.mover().piece(), 64);
                }
                let (n_trial, n_win, n_lose) = child.select(table, rng);
                let ghost updated = child;
                cs.insert(k, child);
                self.n_trial = self.n_trial + n_trial;
                self.n_win = self.n_win + n_lose;
                self.n_lose = self.n_lose + n_win;
                proof {
                    assert(cs@ =~= before.update(k as int, updated));
                    assert forall|i: int| 0 <= i < cs@.len() implies #[trigger] Self::child_ok(
                        self.current_board,
                        self.n_trial as nat,
                        self.kind,
                        cs@[i],
                    ) && cs@[i].wf() by {
                        assert(Self::child_ok(old(self).current_board, old(self).n_trial as nat, self.kind, before[i]));
                        if i == k {
                            assert(cs@[i] == updated);
                        } else {
                            assert(cs@[i] == before[i]);
                        }
                    }
                }
                self.leaves = Some(cs);
                proof {
                    self.lemma_wf_intro();
                    assert(self.children()->Some_0 == cs@);
                }
                (n_trial, n_lose, n_win)
            },
            None => {
                proof {
                    let cells = self.current_board.cells();
                    if all_occupied(cells) {
                        lemma_full_no_win(cells, self.current_board.mover().piece());
                        lemma_full_no_win(cells, self.current_board.mover().other().piece());
                        lemma_open_columns_below(cells, 16);
                        if open_columns(cells).len() > 0 {
                            lemma_full_no_landing(cells, open_columns(cells)[0]);
                        }
                    }
                }
                if self.is_checked || self.n_trial > N_TRIAL_THRESHOLD {
                    let r = self.expand(table, rng);
                    proof {
                        self.lemma_wf_counts();
                    }
                    r
                } else {
                    let res = self.run(table, rng);
                    proof {
                        self.lemma_wf_counts();
                    }
                    res.counts()
                }
            },
        }
    }

    /// The position of this node.
    pub fn current_board(&self) -> (r: BitBoard)
        ensures
            r == self.board(),
    {
        self.current_board
    }

    /// The number of children, or `None` before the node has grown them.
    pub fn leaf_count(&self) -> (r: Option<usize>)
        ensures
            match self.children() {
                Some(cs) => r == Some(cs.len() as usize),
                None => r.is_none(),
            },
    {
        match &self.leaves {
            Some(cs) => Some(cs.len()),
            None => None,
        }
    }

    /// The position of child `i`.
    pub fn leaf_board(&self, i: usize) -> (r: BitBoard)
        requires
            self.children() matches Some(cs) && i < cs.len(),
        ensures
            r == self.children()->Some_0[i as int].board(),
    {
        match &self.leaves {
            Some(cs) => cs[i].current_board,
            None => self.current_board,
        }
    }

    /// A fresh node with the same position, weight and policy.
    fn fresh_copy(&self, table: &LineTable) -> (r: Self)
        requires
            self.wf(),
            table.wf(),
        ensures
            r.wf(),
            r.board() == self.board(),
            r.weight() == self.weight(),
            r.kind() == self.kind(),
            r.trials() == 0,
            r.children().is_none(),
    {
        McTreeLeaf::new(self.current_board, self.policy, self.kind, table)
    }

    /// The counts of this node.
    pub fn win_rate(&self) -> (r: WinRate)
        ensures
            r.trials == self.trials(),
            r.wins == self.wins(),
            r.losses == self.losses(),
    {
        WinRate { trials: self.n_trial, wins: self.n_win, losses: self.n_lose }
    }
}

/// The playout from `start` whose plies take their draws from `draws`; the
/// outcome is seen from the player to move on `start`.
pub fn playout_with(start: &BitBoard, table: &LineTable, draws: &Vec<usize>) -> (r: McResult)
    requires
        start.wf(),
        table.wf(),
        draws@.len() >= empty_count(start.cells()),
    ensures
        r == playout(start.cells(), start.mover(), start.mover(), draws@),
{
    let me = start.next_player();
    let mut board = *start;
    let mut i: usize = 0;
    let n = draws.len();
    assert(draws@.subrange(0, draws@.len() as int) =~= draws@);
    while !board.is_full()
        invariant
            board.wf(),
            table.wf(),
            me == start.mover(),
            n == draws@.len(),
            i <= draws@.len(),
            draws@.len() - i >= empty_count(board.cells()),
            playout(board.cells(), board.mover(), me, draws@.subrange(i as int, draws@.len() as int))
                == playout(start.cells(), start.mover(), me, draws@),
        decreases empty_count(board.cells()),
    {
        if board.win_index(table).is_some() {
            if board.next_player() == me {
                return McResult::Win;
            } else {
                return McResult::Lose;
            }
        }
        proof {
            board.lemma_len();
            lemma_empty_count_pos(board.cells());
            assert(i < draws@.len());
        }
        let c = rollout_column(&board, table, draws[i]);
        proof {
            let rest = draws@.subrange(i as int, draws@.len() as int);
            assert(rest[0] == draws@[i as int]);
            assert(rest.drop_first() =~= draws@.subrange(i as int + 1, draws@.len() as int));
        }
        board = play(&board, c);
        i += 1;
    }
    McResult::Draw
}

/// Sixty-four draws from `rng`, one for each ply a playout can have.
fn random_draws(rng: &mut StdRng) -> (r: Vec<usize>)
    ensures
        r@.len() == 64,
{
    let mut r: Vec<usize> = Vec::new();
    let mut n: usize = 0;
    while n < 64
        invariant
            n <= 64,
            r@.len() == n,
        decreases 64 - n,
    {
        r.push(random_below(rng, DRAW_RANGE));
        n += 1;
    }
    r
}

/// One random game from `start` to its end: each move answers a check when
/// there is one, and is otherwise a playable column drawn uniformly. The
/// outcome is that of `playout` for some draws enough for every ply.
pub fn simulate(start: &BitBoard, table: &LineTable, rng: &mut StdRng) -> (r: McResult)
    requires
        start.wf(),
        table.wf(),
    ensures
        exists|d: Seq<usize>|
            d.len() >= empty_count(start.cells()) && #[trigger] playout(
                start.cells(),
                start.mover(),
                start.mover(),
                d,
            ) == r,
        !all_occupied(start.cells()) && winning_column(start.cells(), start.mover().piece()).is_some()
            ==> r == McResult::Win,
        all_occupied(start.cells()) ==> r == McResult::Draw,
{
    let draws = random_draws(rng);
    proof {
        lemma_empties_le(start.cells(), 64);
    }
    playout_with(start, table, &draws)
}

/// Playout counts of a node, from the view of its player to move. The win
/// rate they stand for is `(wins + draws / 2) / trials`, where draws are the
/// trials neither won nor lost.
#[derive(Clone, Copy, PartialEq, Eq, Debug, Structural)]
pub struct WinRate {
    pub trials: usize,
    pub wins: usize,
    pub losses: usize,
}

/// The win rate of `a` is below that of `b`.
pub open spec fn rate_below(a: WinRate, b: WinRate) -> bool {
    (a.trials + a.wins - a.losses) * b.trials < (b.trials + b.wins - b.losses) * a.trials
}

/// The position of the first lowest win rate among the first `n` entries.
pub open spec fn first_lowest(rs: Seq<Option<WinRate>>, n: int) -> Option<int>
    decreases n,
{
    if n <= 0 {
        None
    } else {
        let b = first_lowest(rs, n - 1);
        match rs[n - 1] {
            None => b,
            Some(x) => match b {
                None => Some(n - 1),
                Some(bi) => if rate_below(x, rs[bi]->Some_0) {
                    Some(n - 1)
                } else {
                    b
                },
            },
        }
    }
}

proof fn lemma_first_lowest(rs: Seq<Option<WinRate>>, n: int)
    requires
        0 <= n <= rs.len(),
    ensures
        first_lowest(rs, n) matches Some(b) ==> 0 <= b < n && rs[b].is_some(),
        first_lowest(rs, n).is_none() <==> forall|i: int| 0 <= i < n ==> #[trigger] rs[i].is_none(),
    decreases n,
{
    if n > 0 {
        lemma_first_lowest(rs, n - 1);
    }
}

/// Whether `a`'s win rate is below `b`'s, comparing the fractions exactly.
fn rate_is_below(a: WinRate, b: WinRate) -> (r: bool)
    requires
        a.wins + a.losses <= a.trials <= MAX_TRIALS,
        b.wins + b.losses <= b.trials <= MAX_TRIALS,
    ensures
        r == rate_below(a, b),
{
    let an = (a.trials as u128) + (a.wins as u128) - (a.losses as u128);
    let bn = (b.trials as u128) + (b.wins as u128) - (b.losses as u128);
    proof {
        assert(a.trials <= 0x8000_0000_0000_0000 && b.trials <= 0x8000_0000_0000_0000);
        assert((an as int) * (b.trials as int) <= 0x1_0000_0000_0000_0000 * 0x8000_0000_0000_0000)
            by (nonlinear_arith)
            requires
                0 <= an <= 0x1_0000_0000_0000_0000,
                0 <= b.trials <= 0x8000_0000_0000_0000,
        ;
        assert((bn as int) * (a.trials as int) <= 0x1_0000_0000_0000_0000 * 0x8000_0000_0000_0000)
            by (nonlinear_arith)
            requires
                0 <= bn <= 0x1_0000_0000_0000_0000,
                0 <= a.trials <= 0x8000_0000_0000_0000,
        ;
    }
    an * (b.trials as u128) < bn * (a.trials as u128)
}

/// The column whose win rate, seen from the opponent, is lowest, with that
/// rate; the first such column on ties, `None` when no entry is present.
pub fn pick_column(results: &Vec<Option<WinRate>>) -> (r: Option<(usize, WinRate)>)
    requires
        forall|i: int|
            0 <= i < results@.len() ==> (#[trigger] results@[i] matches Some(w) ==> w.wins + w.losses
                <= w.trials <= MAX_TRIALS),
    ensures
        match first_lowest(results@, results@.len() as int) {
            None => r.is_none(),
            Some(b) => r == Some((b as usize, results@[b]->Some_0)),
        },
{
    let mut best: Option<(usize, WinRate)> = None;
    let mut i: usize = 0;
    while i < results.len()
        invariant
            i <= results@.len(),
            forall|j: int|
                0 <= j < results@.len() ==> (#[trigger] results@[j] matches Some(w) ==> w.wins
                    + w.losses <= w.trials <= MAX_TRIALS),
            match first_lowest(results@, i as int) {
                None => best.is_none(),
                Some(b) => best == Some((b as usize, results@[b]->Some_0)),
            },
        decreases results@.len() - i,
    {
        proof {
            lemma_first_lowest(results@, i as int);
        }
        if let Some(x) = results[i] {
            match best {
                None => {
                    best = Some((i, x));
                },
                Some((_, b)) => {
                    if rate_is_below(x, b) {
                        best = Some((i, x));
                    }
                },
            }
        }
        i += 1;
    }
    best
}

/// The counts `r` of a subtree after `n_total` search steps: at least one
/// trial per step, and no more than `MAX_TRIALS`.
pub open spec fn search_counts(r: WinRate, n_total: nat) -> bool {
    &&& r.wins + r.losses <= r.trials
    &&& n_total <= r.trials <= MAX_TRIALS
}

/// Per-column results of the search from `board`: an entry exactly for each
/// playable column, each the counts of `n_total` search steps.
pub open spec fn column_results(board: BitBoard, rs: Seq<Option<WinRate>>, n_total: nat) -> bool {
    &&& rs.len() == 16
    &&& forall|c: int|
        0 <= c < 16 ==> (#[trigger] rs[c]).is_some() == landing(board.cells(), c).is_some()
    &&& forall|c: int|
        0 <= c < 16 ==> (#[trigger] rs[c] matches Some(w) ==> search_counts(w, n_total))
}

/// The choice made from per-column results: the first column with the
/// lowest win rate for the opponent, with its counts.
pub open spec fn pick_of(rs: Seq<Option<WinRate>>) -> Option<(usize, Option<WinRate>)> {
    match first_lowest(rs, rs.len() as int) {
        None => None,
        Some(b) => Some((b as usize, Some(rs[b]->Some_0))),
    }
}

/// Runs `n_total` search steps from a fresh copy of a first-move node, with
/// a generator seeded by the given seed, and returns the node's counts.
fn run_job(job: Option<(McTreeLeaf, u64)>, table: &LineTable, n_total: usize) -> (r: Option<WinRate>)
    requires
        table.wf(),
        job matches Some((l, _)) ==> l.wf() && l.trials() == 0,
        n_total <= MAX_SIMULATIONS,
    ensures
        r.is_some() == job.is_some(),
        r matches Some(w) ==> search_counts(w, n_total as nat),
{
    match job {
        None => None,
        Some((mut leaf, seed)) => {
            let mut rng = seeded_rng(seed);
            let mut n: usize = 0;
            assert(16 * MAX_SIMULATIONS <= MAX_TRIALS);
            while n < n_total
                invariant
                    table.wf(),
                    leaf.wf(),
                    n <= n_total,
                    n_total <= MAX_SIMULATIONS,
                    n <= leaf.trials() <= 16 * n,
                decreases n_total - n,
            {
                leaf.select(table, &mut rng);
                n += 1;
            }
            proof {
                leaf.lemma_wf_counts();
            }
            Some(leaf.win_rate())
        },
    }
}

/// Relies on rayon's `into_par_iter` on a `Vec`, then `map` and `collect`:
/// every item passes through the closure once and the results come back in
/// the order of the items.
#[verifier::external_body]
fn run_jobs(jobs: Vec<Option<(McTreeLeaf, u64)>>, table: &LineTable, n_total: usize) -> (r: Vec<
    Option<WinRate>,
>)
    requires
        table.wf(),
        forall|i: int|
            0 <= i < jobs@.len() ==> (#[trigger] jobs@[i] matches Some((l, _)) ==> l.wf() && l.trials()
                == 0),
        n_total <= MAX_SIMULATIONS,
    ensures
        r@.len() == jobs@.len(),
        forall|i: int|
            0 <= i < r@.len() ==> #[trigger] r@[i].is_some() == jobs@[i].is_some() && (r@[i] matches Some(
                w,
            ) ==> search_counts(w, n_total as nat)),
{
    jobs.into_par_iter().map(|job| run_job(job, table, n_total)).collect()
}

/// The largest trial count a subtree reaches, so that win rates can be
/// compared exactly in 128 bits.
pub const MAX_TRIALS: usize = usize::MAX / 2;

/// The largest number of search steps per first move: each step adds at
/// most sixteen trials.
pub const MAX_SIMULATIONS: usize = usize::MAX / 32;

/// A first-move node of the search from `board` with policy `kind`, for
/// column `c`: the position after that move, the move's weight, the check
/// flag, and no trials or children yet.
pub open spec fn fresh_first_move(board: BitBoard, kind: Policy, c: int, l: McTreeLeaf) -> bool {
    let k = landing(board.cells(), c).unwrap() as int;
    &&& l.board().cells() == dropped(board.cells(), c, k, board.mover())
    &&& l.board().mover() == board.mover().other()
    &&& l.weight() == kind.weight(board, c, k)
    &&& l.kind() == kind
    &&& l.checked() == winning_column(l.board().cells(), l.board().mover().other().piece()).is_some()
    &&& l.trials() == 0
    &&& l.wins() == 0
    &&& l.losses() == 0
    &&& l.children().is_none()
}

/// The search from a position: one subtree per first move.
pub struct McTreeRoot {
    current_board: BitBoard,
    kind: Policy,
    leaves: Vec<Option<McTreeLeaf>>,
}

impl McTreeRoot {
    pub closed spec fn board(&self) -> BitBoard {
        self.current_board
    }

    pub closed spec fn kind(&self) -> Policy {
        self.kind
    }

    /// The first-move nodes, one entry per column.
    pub closed spec fn leaves(&self) -> Seq<Option<McTreeLeaf>> {
        self.leaves@
    }

    /// The position is well formed, and there is a fresh node for each
    /// playable column, with the position after that move.
    pub closed spec fn wf(&self) -> bool {
        &&& self.current_board.wf()
        &&& self.leaves@.len() == 16
        &&& forall|c: int|
            0 <= c < 16 ==> (#[trigger] self.leaves@[c]).is_some() == landing(
                self.current_board.cells(),
                c,
            ).is_some()
        &&& forall|c: int|
            0 <= c < 16 ==> (#[trigger] self.leaves@[c] matches Some(l) ==> l.wf() && fresh_first_move(
                self.current_board,
                self.kind,
                c,
                l,
            ))
    }

    /// The search from `board`, weighting moves by `kind`.
    pub fn new(board: BitBoard, kind: Policy, table: &LineTable) -> (r: Self)
        requires
            board.wf(),
            table.wf(),
        ensures
            r.wf(),
            r.board() == board,
            r.kind() == kind,
            r.leaves().len() == 16,
            forall|c: int|
                0 <= c < 16 ==> (#[trigger] r.leaves()[c]).is_some() == landing(board.cells(), c).is_some(),
            forall|c: int|
                0 <= c < 16 ==> (#[trigger] r.leaves()[c] matches Some(l) ==> fresh_first_move(
                    board,
                    kind,
                    c,
                    l,
                )),
    {
        let mut leaves: Vec<Option<McTreeLeaf>> = Vec::new();
        let mut c: usize = 0;
        while c < 16
            invariant
                board.wf(),
                table.wf(),
                c <= 16,
                leaves@.len() == c,
                forall|d: int|
                    0 <= d < c ==> (#[trigger] leaves@[d]).is_some() == landing(board.cells(), d).is_some(),
                forall|d: int|
                    0 <= d < c ==> (#[trigger] leaves@[d] matches Some(l) ==> l.wf() && fresh_first_move(
                        board,
                        kind,
                        d,
                        l,
                    )),
            decreases 16 - c,
        {
            let leaf = match kind.put_with_policy(&board, table, c) {
                Some((b, p)) => Some(McTreeLeaf::new(b, p, kind, table)),
                None => None,
            };
            leaves.push(leaf);
            c += 1;
        }
        McTreeRoot { current_board: board, kind, leaves }
    }

    /// Runs `n_total` search steps from every first move, in parallel, with
    /// generators seeded from `seed` and the column; returns the counts of
    /// each subtree, `None` for a full column.
    pub fn search_columns(&self, table: &LineTable, n_total: usize, seed: u64) -> (r: Vec<
        Option<WinRate>,
    >)
        requires
            self.wf(),
            table.wf(),
            n_total <= MAX_SIMULATIONS,
        ensures
            column_results(self.board(), r@, n_total as nat),
    {
        let mut jobs: Vec<Option<(McTreeLeaf, u64)>> = Vec::new();
        let mut c: usize = 0;
        while c < 16
            invariant
                self.wf(),
                table.wf(),
                c <= 16,
                jobs@.len() == c,
                forall|d: int|
                    0 <= d < c ==> (#[trigger] jobs@[d]).is_some() == self.leaves@[d].is_some(),
                forall|d: int|
                    0 <= d < c ==> (#[trigger] jobs@[d] matches Some((l, _)) ==> l.wf() && l.trials() == 0),
            decreases 16 - c,
        {
            let job = match &self.leaves[c] {
                Some(leaf) => Some((leaf.fresh_copy(table), seed ^ (c as u64))),
                None => None,
            };
            jobs.push(job);
            c += 1;
        }
        let results = run_jobs(jobs, table, n_total);
        proof {
            assert forall|d: int| 0 <= d < 16 implies (#[trigger] results@[d]).is_some() == landing(
                self.current_board.cells(),
                d,
            ).is_some() by {
                assert(self.leaves@[d].is_some() == landing(self.current_board.cells(), d).is_some());
            }
            assert forall|d: int| 0 <= d < 16 implies (#[trigger] results@[d] matches Some(w)
                ==> search_counts(w, n_total as nat)) by {
                assert(results@[d].is_some() == jobs@[d].is_some());
            }
        }
        results
    }

    /// Chooses a move for the player to move. When the opponent threatens
    /// to complete a line, the blocking column comes back at once, without
    /// counts. Otherwise the choice is `pick_of` the results of
    /// `search_columns`: the first column whose subtree the opponent wins
    /// least, with the opponent's counts. `None` when no column can be
    /// played. The search leaves the root as it was.
    pub fn select(&mut self, table: &LineTable, n_total: usize, seed: u64) -> (r: Option<
        (usize, Option<WinRate>),
    >)
        requires
            old(self).wf(),
            table.wf(),
            n_total <= MAX_SIMULATIONS,
        ensures
            *final(self) == *old(self),
            ({
                let cells = old(self).board().cells();
                match winning_column(cells, old(self).board().mover().other().piece()) {
                    Some(c) => r == Some((c, None::<WinRate>)),
                    None => exists|rs: Seq<Option<WinRate>>|
                        column_results(old(self).board(), rs, n_total as nat) && #[trigger] pick_of(rs)
                            == r,
                }
            }),
            winning_column(old(self).board().cells(), old(self).board().mover().other().piece()).is_none()
                ==> (r.is_none() <==> forall|c: int| 0 <= c < 16 ==> #[trigger] landing(
                old(self).board().cells(),
                c,
            ).is_none()),
    {
        if let Some(index) = self.current_board.check_index(table) {
            return Some((index, None));
        }
        let results = self.search_columns(table, n_total, seed);
        proof {
            assert forall|i: int| 0 <= i < results@.len() implies (#[trigger] results@[i] matches Some(w)
                ==> w.wins + w.losses <= w.trials <= MAX_TRIALS) by {
                if results@[i] is Some {
                    assert(search_counts(results@[i]->Some_0, n_total as nat));
                }
            }
        }
        let picked = pick_column(&results);
        let r = match picked {
            Some((index, rate)) => Some((index, Some(rate))),
            None => None,
        };
        proof {
            lemma_first_lowest(results@, 16);
            assert(pick_of(results@) == r);
            match first_lowest(results@, 16) {
                Some(b) => {
                    assert(0 <= b < 16);
                    assert(results@[b].is_some());
                    assert(landing(old(self).board().cells(), b).is_some());
                    assert(!landing(old(self).board().cells(), b).is_none());
                    assert(r.is_some());
                    assert(!(forall|c: int| 0 <= c < 16 ==> #[trigger] landing(
                        old(self).board().cells(),
                        c,
                    ).is_none()));
                },
                None => {
                    assert forall|d: int| 0 <= d < 16 implies #[trigger] landing(
                        old(self).board().cells(),
                        d,
                    ).is_none() by {
                        assert(results@[d].is_none());
                    }
                    assert(r.is_none());
                },
            }
            assert(r.is_none() <==> forall|c: int| 0 <= c < 16 ==> #[trigger] landing(
                old(self).board().cells(),
                c,
            ).is_none());
        }
        r
    }
}

} // verus!
