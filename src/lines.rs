use vstd::prelude::*;

use crate::bits::{has_bit, lemma_covers3, lemma_mask3_bits, mask3};

verus! {

/// Number of line directions that can pass through a cell.
pub const N_DIRS: usize = 13;

/// Linear index of the cell at row `i`, position `j`, height `k`.
pub open spec fn cell_at(i: int, j: int, k: int) -> int {
    k * 16 + i * 4 + j
}

/// Whether the line of direction `d` through cell `(i, j, k)` lies inside the cube.
///
/// Direction 0 is the vertical line; it only counts for the top cell of a
/// column, so that a vertical four is found once.
pub open spec fn applies(d: int, i: int, j: int, k: int) -> bool {
    if d == 0 {
        k == 3
    } else if d == 1 || d == 2 {
        true
    } else if d == 3 {
        i == j
    } else if d == 4 {
        i + j == 3
    } else if d == 5 {
        i == k
    } else if d == 6 {
        i + k == 3
    } else if d == 7 {
        j == k
    } else if d == 8 {
        j + k == 3
    } else if d == 9 {
        i == j && i == k
    } else if d == 10 {
        i + j == 3 && i == k
    } else if d == 11 {
        i == j && i + k == 3
    } else if d == 12 {
        i + j == 3 && i + k == 3
    } else {
        false
    }
}

/// The `t`-th cell, as `(i, j, k)`, of the line of direction `d` through `(i, j, k)`.
pub open spec fn point(d: int, t: int, i: int, j: int, k: int) -> (int, int, int) {
    if d == 0 {
        (i, j, t)
    } else if d == 1 {
        (t, j, k)
    } else if d == 2 {
        (i, t, k)
    } else if d == 3 {
        (t, t, k)
    } else if d == 4 {
        (t, 3 - t, k)
    } else if d == 5 {
        (t, j, t)
    } else if d == 6 {
        (t, j, 3 - t)
    } else if d == 7 {
        (i, t, t)
    } else if d == 8 {
        (i, t, 3 - t)
    } else if d == 9 {
        (t, t, t)
    } else if d == 10 {
        (t, 3 - t, t)
    } else if d == 11 {
        (t, t, 3 - t)
    } else {
        (t, 3 - t, 3 - t)
    }
}

/// The position of `(i, j, k)` itself along the line of direction `d`.
pub open spec fn own_param(d: int, i: int, j: int, k: int) -> int {
    if d == 0 {
        k
    } else if d == 2 || d == 7 || d == 8 {
        j
    } else {
        i
    }
}

/// Linear index of the `t`-th cell of a line.
pub open spec fn line_cell(d: int, t: int, i: int, j: int, k: int) -> int {
    let p = point(d, t, i, j, k);
    cell_at(p.0, p.1, p.2)
}

/// The three positions along a line other than `own`, in increasing order.
pub open spec fn others(own: int) -> (int, int, int) {
    if own == 0 {
        (1, 2, 3)
    } else if own == 1 {
        (0, 2, 3)
    } else if own == 2 {
        (0, 1, 3)
    } else {
        (0, 1, 2)
    }
}

pub fn others_exec(own: usize) -> (r: (usize, usize, usize))
    requires
        own < 4,
    ensures
        r.0 == others(own as int).0,
        r.1 == others(own as int).1,
        r.2 == others(own as int).2,
{
    if own == 0 {
        (1, 2, 3)
    } else if own == 1 {
        (0, 2, 3)
    } else if own == 2 {
        (0, 1, 3)
    } else {
        (0, 1, 2)
    }
}

pub fn applies_exec(d: usize, i: usize, j: usize, k: usize) -> (r: bool)
    requires
        i < 4,
        j < 4,
        k < 4,
    ensures
        r == applies(d as int, i as int, j as int, k as int),
{
    if d == 0 {
        k == 3
    } else if d == 1 || d == 2 {
        true
    } else if d == 3 {
        i == j
    } else if d == 4 {
        i + j == 3
    } else if d == 5 {
        i == k
    } else if d == 6 {
        i + k == 3
    } else if d == 7 {
        j == k
    } else if d == 8 {
        j + k == 3
    } else if d == 9 {
        i == j && i == k
    } else if d == 10 {
        i + j == 3 && i == k
    } else if d == 11 {
        i == j && i + k == 3
    } else if d == 12 {
        i + j == 3 && i + k == 3
    } else {
        false
    }
}

pub fn own_param_exec(d: usize, i: usize, j: usize, k: usize) -> (r: usize)
    requires
        i < 4,
        j < 4,
        k < 4,
    ensures
        r == own_param(d as int, i as int, j as int, k as int),
        r < 4,
{
    if d == 0 {
        k
    } else if d == 2 || d == 7 || d == 8 {
        j
    } else {
        i
    }
}

/// Linear index of the `t`-th cell of the line of direction `d` through `(i, j, k)`.
pub fn line_cell_exec(d: usize, t: usize, i: usize, j: usize, k: usize) -> (r: usize)
    requires
        t < 4,
        i < 4,
        j < 4,
        k < 4,
    ensures
        r == line_cell(d as int, t as int, i as int, j as int, k as int),
        r < 64,
{
    let (pi, pj, pk): (usize, usize, usize) = if d == 0 {
        (i, j, t)
    } else if d == 1 {
        (t, j, k)
    } else if d == 2 {
        (i, t, k)
    } else if d == 3 {
        (t, t, k)
    } else if d == 4 {
        (t, 3 - t, k)
    } else if d == 5 {
        (t, j, t)
    } else if d == 6 {
        (t, j, 3 - t)
    } else if d == 7 {
        (i, t, t)
    } else if d == 8 {
        (i, t, 3 - t)
    } else if d == 9 {
        (t, t, t)
    } else if d == 10 {
        (t, 3 - t, t)
    } else if d == 11 {
        (t, t, 3 - t)
    } else {
        (t, 3 - t, 3 - t)
    };
    pk * 16 + pi * 4 + pj
}

/// Row, position in the row, and height of cell `x`.
pub open spec fn coords(x: int) -> (int, int, int) {
    (x / 4 % 4, x % 4, x / 16)
}

/// The mask of the three cells other than `x` on the line of direction `d`
/// through `x`.
pub open spec fn line_mask(d: int, x: int) -> u64 {
    let (i, j, k) = coords(x);
    let o = others(own_param(d, i, j, k));
    mask3(
        line_cell(d, o.0, i, j, k) as u64,
        line_cell(d, o.1, i, j, k) as u64,
        line_cell(d, o.2, i, j, k) as u64,
    )
}

/// The masks of the lines through `x` whose direction is below `n`, in
/// order of direction.
pub open spec fn masks_below(x: int, n: int) -> Seq<u64>
    decreases n,
{
    if n <= 0 {
        seq![]
    } else {
        let (i, j, k) = coords(x);
        if applies(n - 1, i, j, k) {
            masks_below(x, n - 1).push(line_mask(n - 1, x))
        } else {
            masks_below(x, n - 1)
        }
    }
}

/// The masks of every line through `x`.
pub open spec fn line_masks(x: int) -> Seq<u64> {
    masks_below(x, 13)
}

/// `w` holds every cell of the mask.
pub open spec fn covers(w: u64, m: u64) -> bool {
    w & m == m
}

/// There is at most one mask per direction.
pub proof fn lemma_masks_len(x: int, n: int)
    requires
        0 <= n,
    ensures
        masks_below(x, n).len() <= n,
    decreases n,
{
    if n > 0 {
        lemma_masks_len(x, n - 1);
    }
}

/// The masks below `a` begin the masks below `b`, for `a <= b`.
pub proof fn lemma_masks_prefix(x: int, a: int, b: int)
    requires
        0 <= a <= b,
    ensures
        masks_below(x, a).len() <= masks_below(x, b).len(),
        forall|e: int|
            0 <= e < masks_below(x, a).len() ==> masks_below(x, b)[e] == #[trigger] masks_below(
                x,
                a,
            )[e],
    decreases b,
{
    if a < b {
        lemma_masks_prefix(x, a, b - 1);
    }
}

/// The direction of entry `idx` of the masks below `n`.
pub open spec fn dir_of(x: int, n: int, idx: int) -> int
    decreases n,
{
    if n <= 0 {
        0
    } else if applies(n - 1, coords(x).0, coords(x).1, coords(x).2) && idx == masks_below(
        x,
        n - 1,
    ).len() {
        n - 1
    } else {
        dir_of(x, n - 1, idx)
    }
}

/// The entry of direction `d` among the masks below `n`.
pub open spec fn pos_of(x: int, n: int, d: int) -> int
    decreases n,
{
    if n <= 0 {
        0
    } else if d == n - 1 {
        masks_below(x, n - 1).len() as int
    } else {
        pos_of(x, n - 1, d)
    }
}

/// Entry `idx` of the masks below `n` is the mask of direction
/// `dir_of(x, n, idx)`, which is below `n` and applies.
pub proof fn lemma_mask_dir(x: int, n: int, idx: int)
    requires
        0 <= n <= 13,
        0 <= idx < masks_below(x, n).len(),
    ensures
        0 <= dir_of(x, n, idx) < n,
        applies(dir_of(x, n, idx), coords(x).0, coords(x).1, coords(x).2),
        masks_below(x, n)[idx] == line_mask(dir_of(x, n, idx), x),
    decreases n,
{
    let prev = masks_below(x, n - 1);
    if applies(n - 1, coords(x).0, coords(x).1, coords(x).2) {
        assert(masks_below(x, n) == prev.push(line_mask(n - 1, x)));
        if idx < prev.len() {
            lemma_mask_dir(x, n - 1, idx);
        }
    } else {
        assert(masks_below(x, n) == prev);
        lemma_mask_dir(x, n - 1, idx);
    }
}

/// Each direction below `n` that applies has its mask at `pos_of(x, n, d)`.
pub proof fn lemma_mask_pos(x: int, n: int, d: int)
    requires
        0 <= d < n <= 13,
        applies(d, coords(x).0, coords(x).1, coords(x).2),
    ensures
        0 <= pos_of(x, n, d) < masks_below(x, n).len(),
        masks_below(x, n)[pos_of(x, n, d)] == line_mask(d, x),
    decreases n,
{
    let prev = masks_below(x, n - 1);
    if applies(n - 1, coords(x).0, coords(x).1, coords(x).2) {
        assert(masks_below(x, n) == prev.push(line_mask(n - 1, x)));
    } else {
        assert(masks_below(x, n) == prev);
    }
    if d < n - 1 {
        lemma_mask_pos(x, n - 1, d);
    }
}

/// A player's word covers the mask of a line exactly when the player holds
/// the line's three cells other than `x`.
pub proof fn lemma_line_mask(d: int, x: int, w: u64, p: Seq<bool>)
    requires
        0 <= x < 64,
        p.len() == 64,
        forall|y: int| 0 <= y < 64 ==> p[y] == has_bit(w, y as u64),
    ensures
        covers(w, line_mask(d, x)) <==> forall|t: int|
            0 <= t < 4 && t != own_param(d, coords(x).0, coords(x).1, coords(x).2)
                ==> #[trigger] p[line_cell(d, t, coords(x).0, coords(x).1, coords(x).2)],
        line_mask(d, x) & w == 0 <==> forall|t: int|
            0 <= t < 4 && t != own_param(d, coords(x).0, coords(x).1, coords(x).2)
                ==> !#[trigger] p[line_cell(d, t, coords(x).0, coords(x).1, coords(x).2)],
{
    let i = coords(x).0;
    let j = coords(x).1;
    let k = coords(x).2;
    let own = own_param(d, i, j, k);
    let o = others(own);
    assert forall|t: int| 0 <= t < 4 implies 0 <= #[trigger] line_cell(d, t, i, j, k) < 64 by {}
    let a = line_cell(d, o.0, i, j, k);
    let b = line_cell(d, o.1, i, j, k);
    let c = line_cell(d, o.2, i, j, k);
    assert(0 <= own < 4);
    assert(p[a] == has_bit(w, a as u64));
    assert(p[b] == has_bit(w, b as u64));
    assert(p[c] == has_bit(w, c as u64));
    lemma_covers3(w, a as u64, b as u64, c as u64);
    let m = line_mask(d, x);
    assert(m & w == w & m) by (bit_vector);
    assert forall|t: int| 0 <= t < 4 && t != own implies #[trigger] line_cell(d, t, i, j, k) == a
        || line_cell(d, t, i, j, k) == b || line_cell(d, t, i, j, k) == c by {
        assert(t == o.0 || t == o.1 || t == o.2);
    }
}

/// For each cell, the masks of the lines through it.
pub struct LineTable {
    masks: Vec<Vec<u64>>,
}

impl LineTable {
    pub closed spec fn wf(&self) -> bool {
        &&& self.masks@.len() == 64
        &&& forall|x: int| 0 <= x < 64 ==> #[trigger] self.masks@[x]@ == line_masks(x)
    }

    /// Builds the masks of every line through every cell.
    pub fn new() -> (r: LineTable)
        ensures
            r.wf(),
    {
        let mut masks: Vec<Vec<u64>> = Vec::new();
        let mut x: usize = 0;
        while x < 64
            invariant
                x <= 64,
                masks@.len() == x,
                forall|y: int| 0 <= y < x ==> #[trigger] masks@[y]@ == line_masks(y),
            decreases 64 - x,
        {
            let i = x / 4 % 4;
            let j = x % 4;
            let k = x / 16;
            let mut v: Vec<u64> = Vec::new();
            let mut d: usize = 0;
            while d < N_DIRS
                invariant
                    x < 64,
                    i == x / 4 % 4,
                    j == x % 4,
                    k == x / 16,
                    d <= 13,
                    v@ == masks_below(x as int, d as int),
                decreases 13 - d,
            {
                if applies_exec(d, i, j, k) {
                    let own = own_param_exec(d, i, j, k);
                    let (t0, t1, t2) = others_exec(own);
                    let a = line_cell_exec(d, t0, i, j, k) as u64;
                    let b = line_cell_exec(d, t1, i, j, k) as u64;
                    let c = line_cell_exec(d, t2, i, j, k) as u64;
                    v.push((1u64 << a) | (1u64 << b) | (1u64 << c));
                }
                d += 1;
            }
            masks.push(v);
            x += 1;
        }
        LineTable { masks }
    }

    /// The masks of the lines through cell `x`.
    pub fn masks_of(&self, x: usize) -> (r: &Vec<u64>)
        requires
            self.wf(),
            x < 64,
        ensures
            r@ == line_masks(x as int),
    {
        &self.masks[x]
    }
}

/// Two different lines through a cell share no other cell.
pub proof fn lemma_lines_meet_once(d1: int, d2: int, t1: int, t2: int, i: int, j: int, k: int)
    requires
        0 <= d1 < 13,
        0 <= d2 < 13,
        d1 != d2,
        0 <= i < 4,
        0 <= j < 4,
        0 <= k < 4,
        applies(d1, i, j, k),
        applies(d2, i, j, k),
        0 <= t1 < 4,
        0 <= t2 < 4,
        t1 != own_param(d1, i, j, k),
        t2 != own_param(d2, i, j, k),
    ensures
        point(d1, t1, i, j, k) != point(d2, t2, i, j, k),
{
}

/// Cells inside the cube have different indices.
proof fn lemma_cell_at_injective(p: (int, int, int), q: (int, int, int))
    requires
        0 <= p.0 < 4,
        0 <= p.1 < 4,
        0 <= p.2 < 4,
        0 <= q.0 < 4,
        0 <= q.1 < 4,
        0 <= q.2 < 4,
        p != q,
    ensures
        cell_at(p.0, p.1, p.2) != cell_at(q.0, q.1, q.2),
{
}

/// Different lines through a cell have different masks.
pub proof fn lemma_mask_distinct(d1: int, d2: int, x: int)
    requires
        0 <= x < 64,
        0 <= d1 < 13,
        0 <= d2 < 13,
        d1 != d2,
        applies(d1, coords(x).0, coords(x).1, coords(x).2),
        applies(d2, coords(x).0, coords(x).1, coords(x).2),
    ensures
        line_mask(d1, x) != line_mask(d2, x),
{
    let i = coords(x).0;
    let j = coords(x).1;
    let k = coords(x).2;
    let o1 = others(own_param(d1, i, j, k));
    let o2 = others(own_param(d2, i, j, k));
    let p = point(d1, o1.0, i, j, k);
    let a = line_cell(d1, o1.0, i, j, k);
    let b = line_cell(d1, o1.1, i, j, k);
    let c = line_cell(d1, o1.2, i, j, k);
    let a2 = line_cell(d2, o2.0, i, j, k);
    let b2 = line_cell(d2, o2.1, i, j, k);
    let c2 = line_cell(d2, o2.2, i, j, k);
    lemma_lines_meet_once(d1, d2, o1.0, o2.0, i, j, k);
    lemma_lines_meet_once(d1, d2, o1.0, o2.1, i, j, k);
    lemma_lines_meet_once(d1, d2, o1.0, o2.2, i, j, k);
    lemma_cell_at_injective(p, point(d2, o2.0, i, j, k));
    lemma_cell_at_injective(p, point(d2, o2.1, i, j, k));
    lemma_cell_at_injective(p, point(d2, o2.2, i, j, k));
    assert(0 <= a < 64 && 0 <= b < 64 && 0 <= c < 64);
    assert(0 <= a2 < 64 && 0 <= b2 < 64 && 0 <= c2 < 64);
    lemma_mask3_bits(a as u64, b as u64, c as u64, a as u64);
    lemma_mask3_bits(a2 as u64, b2 as u64, c2 as u64, a as u64);
}

/// No mask appears twice among the masks below `n`.
pub proof fn lemma_masks_unique(x: int, n: int)
    requires
        0 <= x < 64,
        0 <= n <= 13,
    ensures
        forall|a: int, b: int|
            0 <= a < b < masks_below(x, n).len() ==> #[trigger] masks_below(x, n)[a]
                != #[trigger] masks_below(x, n)[b],
    decreases n,
{
    if n > 0 {
        lemma_masks_unique(x, n - 1);
        let prev = masks_below(x, n - 1);
        let (i, j, k) = coords(x);
        if applies(n - 1, i, j, k) {
            let cur = masks_below(x, n);
            assert forall|a: int, b: int| 0 <= a < b < cur.len() implies #[trigger] cur[a]
                != #[trigger] cur[b] by {
                if b == prev.len() {
                    assert(cur[a] == prev[a]);
                    lemma_mask_dir(x, n - 1, a);
                    lemma_mask_distinct(dir_of(x, n - 1, a), n - 1, x);
                } else {
                    assert(cur[a] == prev[a]);
                    assert(cur[b] == prev[b]);
                }
            }
        }
    }
}

/// The table of masks through a cell lists each line through that cell:
/// every entry is the mask of the three other cells of a line of four through
/// `x` (the vertical line only from its top cell), namely the line of
/// direction `dir_of(x, 13, idx)`; and the line of every direction that fits
/// in the cube at `x` has an entry, at `pos_of(x, 13, d)`.
pub proof fn lemma_line_table(x: int)
    requires
        0 <= x < 64,
    ensures
        forall|idx: int|
            0 <= idx < line_masks(x).len() ==> #[trigger] line_masks(x)[idx] == line_mask(
                dir_of(x, 13, idx),
                x,
            ),
        forall|idx: int|
            0 <= idx < line_masks(x).len() ==> 0 <= #[trigger] dir_of(x, 13, idx) < 13,
        forall|idx: int|
            0 <= idx < line_masks(x).len() ==> applies(
                #[trigger] dir_of(x, 13, idx),
                coords(x).0,
                coords(x).1,
                coords(x).2,
            ),
        forall|d: int|
            0 <= d < 13 && applies(d, coords(x).0, coords(x).1, coords(x).2) ==> 0 <= #[trigger] pos_of(
                x,
                13,
                d,
            ) < line_masks(x).len() && line_masks(x)[pos_of(x, 13, d)] == line_mask(d, x),
{
    assert forall|idx: int| 0 <= idx < line_masks(x).len() implies #[trigger] line_masks(x)[idx]
        == line_mask(dir_of(x, 13, idx), x) by {
        lemma_mask_dir(x, 13, idx);
    }
    assert forall|idx: int| 0 <= idx < line_masks(x).len() implies 0 <= #[trigger] dir_of(x, 13, idx) < 13 by {
        lemma_mask_dir(x, 13, idx);
    }
    assert forall|idx: int| 0 <= idx < line_masks(x).len() implies applies(
        #[trigger] dir_of(x, 13, idx),
        coords(x).0,
        coords(x).1,
        coords(x).2,
    ) by {
        lemma_mask_dir(x, 13, idx);
    }
    assert forall|d: int|
        0 <= d < 13 && applies(d, coords(x).0, coords(x).1, coords(x).2) implies 0
        <= #[trigger] pos_of(x, 13, d) < line_masks(x).len() && line_masks(x)[pos_of(x, 13, d)]
        == line_mask(d, x) by {
        lemma_mask_pos(x, 13, d);
    }
}

/// No line is listed twice in the table of masks through a cell.
pub proof fn lemma_line_table_unique(x: int)
    requires
        0 <= x < 64,
    ensures
        forall|a: int, b: int|
            0 <= a < b < line_masks(x).len() ==> #[trigger] line_masks(x)[a]
                != #[trigger] line_masks(x)[b],
{
    lemma_masks_unique(x, 13);
}

} // verus!
