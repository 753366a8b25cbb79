//! Coordinates, the 3x3 neighborhood, and the flat boolean grid that backs
//! the minefield.

use vstd::prelude::*;

verus! {

/// A (row, col) position, used both for grid cells and raw screen positions.
#[derive(Copy, Clone, PartialEq, Eq, Structural, Debug)]
pub struct IndexPair {
    pub row: u16,
    pub col: u16,
}

/// `d` names a cell of a grid of size `size` (row-major, exclusive bounds).
pub open spec fn in_bounds(size: IndexPair, d: IndexPair) -> bool {
    d.row < size.row && d.col < size.col
}

/// `e` lies in the 3x3 block centered on `d` (the center itself included).
pub open spec fn near(d: IndexPair, e: IndexPair) -> bool {
    &&& d.row - 1 <= e.row <= d.row + 1
    &&& d.col - 1 <= e.col <= d.col + 1
}

/// `e` is one of the up-to-8 cells adjacent to `d`.
pub open spec fn is_neighbor(d: IndexPair, e: IndexPair) -> bool {
    near(d, e) && d != e
}

/// First row of the 3x3 block centered on `d`, clipped to the grid.
pub open spec fn blk_row_lo(d: IndexPair) -> int {
    if d.row >= 1 {
        d.row - 1
    } else {
        0
    }
}

/// One past the last row of the clipped 3x3 block centered on `d`.
pub open spec fn blk_row_hi(size: IndexPair, d: IndexPair) -> int {
    if d.row + 2 <= size.row {
        d.row + 2
    } else {
        size.row as int
    }
}

/// First column of the clipped 3x3 block centered on `d`.
pub open spec fn blk_col_lo(d: IndexPair) -> int {
    if d.col >= 1 {
        d.col - 1
    } else {
        0
    }
}

/// One past the last column of the clipped 3x3 block centered on `d`.
pub open spec fn blk_col_hi(size: IndexPair, d: IndexPair) -> int {
    if d.col + 2 <= size.col {
        d.col + 2
    } else {
        size.col as int
    }
}

/// Number of cells in the clipped 3x3 block centered on `d`: between 1
/// (a 1x1 grid) and 9 (an interior cell), the center included.
pub open spec fn block_len(size: IndexPair, d: IndexPair) -> int {
    (blk_row_hi(size, d) - blk_row_lo(d)) * (blk_col_hi(size, d) - blk_col_lo(d))
}

/// The cell at position `k` of the row-major enumeration of the clipped 3x3
/// block centered on `d`.
pub open spec fn block_at(size: IndexPair, d: IndexPair, k: int) -> IndexPair {
    let w = blk_col_hi(size, d) - blk_col_lo(d);
    IndexPair {
        row: (blk_row_lo(d) + k / w) as u16,
        col: (blk_col_lo(d) + k % w) as u16,
    }
}

/// For an in-bounds center the clipped block is exactly the set of in-bounds
/// near cells, and it holds at most 9 cells.
pub proof fn lemma_block_characterization(size: IndexPair, d: IndexPair)
    requires
        in_bounds(size, d),
    ensures
        forall|e: IndexPair|
            (in_bounds(size, e) && near(d, e)) <==> (blk_row_lo(d) <= e.row < blk_row_hi(size, d)
                && blk_col_lo(d) <= e.col < blk_col_hi(size, d)),
        1 <= blk_row_hi(size, d) - blk_row_lo(d) <= 3,
        1 <= blk_col_hi(size, d) - blk_col_lo(d) <= 3,
        1 <= block_len(size, d) <= 9,
{
    let rn = blk_row_hi(size, d) - blk_row_lo(d);
    let cn = blk_col_hi(size, d) - blk_col_lo(d);
    assert(1 <= rn <= 3);
    assert(1 <= cn <= 3);
    assert(rn * cn <= 9) by (nonlinear_arith)
        requires
            1 <= rn <= 3,
            1 <= cn <= 3,
    ;
    assert(1 <= rn * cn) by (nonlinear_arith)
        requires
            1 <= rn,
            1 <= cn,
    ;
}

/// Number of `true` entries of a boolean sequence.
pub open spec fn count_true(s: Seq<bool>) -> int
    decreases s.len(),
{
    if s.len() == 0 {
        0
    } else {
        count_true(s.drop_last()) + if s.last() {
            1int
        } else {
            0int
        }
    }
}

pub proof fn lemma_count_true_bounds(s: Seq<bool>)
    ensures
        0 <= count_true(s) <= s.len(),
    decreases s.len(),
{
    if s.len() > 0 {
        lemma_count_true_bounds(s.drop_last());
    }
}

/// Extending a prefix by one element adds that element's contribution.
pub proof fn lemma_count_true_take_step(s: Seq<bool>, i: int)
    requires
        0 <= i < s.len(),
    ensures
        count_true(s.take(i + 1)) == count_true(s.take(i)) + if s[i] {
            1int
        } else {
            0int
        },
{
    assert(s.take(i + 1).drop_last() =~= s.take(i));
    assert(s.take(i + 1).last() == s[i]);
}

pub proof fn lemma_count_true_take_all(s: Seq<bool>)
    ensures
        count_true(s.take(s.len() as int)) == count_true(s),
{
    assert(s.take(s.len() as int) =~= s);
}

/// Overwriting one entry changes the count by the difference of the old and
/// new contributions.
pub proof fn lemma_count_true_update(s: Seq<bool>, i: int, v: bool)
    requires
        0 <= i < s.len(),
    ensures
        count_true(s.update(i, v)) == count_true(s) - (if s[i] {
            1int
        } else {
            0int
        }) + (if v {
            1int
        } else {
            0int
        }),
    decreases s.len(),
{
    let t = s.update(i, v);
    if i == s.len() - 1 {
        assert(t.drop_last() =~= s.drop_last());
        assert(t.last() == v);
    } else {
        assert(t.drop_last() =~= s.drop_last().update(i, v));
        assert(t.last() == s.last());
        lemma_count_true_update(s.drop_last(), i, v);
    }
}

/// A fixed-size 2D array of booleans, stored row-major in a flat vector.
pub struct Grid {
    pub data: Vec<bool>,
    pub size: IndexPair,
}

impl Grid {
    /// The flat row-major index of cell `d`.
    pub open spec fn pos(self, d: IndexPair) -> int {
        d.row * self.size.col + d.col
    }

    /// The backing vector has exactly one entry per cell, and the cell count
    /// fits a `u16` so that counting cells never overflows.
    pub open spec fn wf(self) -> bool {
        &&& self.data.len() == self.size.row * self.size.col
        &&& self.size.row * self.size.col <= u16::MAX
    }

    /// The value stored at cell `d`.
    pub open spec fn cell(self, d: IndexPair) -> bool {
        self.data[self.pos(d)]
    }

    /// Row-major flat positions of in-bounds cells are in range and distinct
    /// for distinct cells.
    pub proof fn lemma_pos(self, d: IndexPair, e: IndexPair)
        requires
            in_bounds(self.size, d),
            in_bounds(self.size, e),
        ensures
            0 <= self.pos(d) < self.size.row * self.size.col,
            d != e ==> self.pos(d) != self.pos(e),
    {
        let r = d.row as int;
        let c = d.col as int;
        let nr = self.size.row as int;
        let nc = self.size.col as int;
        assert(r * nc + c < nr * nc) by (nonlinear_arith)
            requires
                0 <= r < nr,
                0 <= c < nc,
        ;
        assert(0 <= r * nc + c) by (nonlinear_arith)
            requires
                0 <= r,
                0 <= c,
                0 <= nc,
        ;
        if d != e {
            assert(r * nc + c != e.row * nc + e.col) by (nonlinear_arith)
                requires
                    0 <= r,
                    0 <= c < nc,
                    0 <= e.row,
                    0 <= e.col < nc,
                    !(r == e.row && c == e.col),
            ;
        }
    }

    /// Allocates a grid of the given size with every cell `false`.
    pub fn new(size: IndexPair) -> (g: Grid)
        requires
            size.row * size.col <= u16::MAX,
        ensures
            g.wf(),
            g.size == size,
            forall|d: IndexPair| in_bounds(size, d) ==> !g.cell(d),
            count_true(g.data@) == 0,
    {
        let n: usize = (size.row as usize) * (size.col as usize);
        let mut data: Vec<bool> = Vec::new();
        let mut i: usize = 0;
        while i < n
            invariant
                i <= n,
                data.len() == i,
                forall|j: int| 0 <= j < i ==> !data[j],
            decreases n - i,
        {
            data.push(false);
            i += 1;
        }
        proof {
            lemma_all_false_count_zero(data@);
        }
        let g = Grid { data, size };
        proof {
            assert forall|d: IndexPair| in_bounds(size, d) implies !g.cell(d) by {
                g.lemma_pos(d, d);
            }
        }
        g
    }

    /// Reads the cell at `d`.
    pub fn get(&self, d: IndexPair) -> (r: bool)
        requires
            self.wf(),
            in_bounds(self.size, d),
        ensures
            r == self.cell(d),
    {
        proof {
            self.lemma_pos(d, d);
        }
        let p: usize = (d.row as usize) * (self.size.col as usize) + (d.col as usize);
        self.data[p]
    }

    /// Writes `v` into the cell at `d`, leaving every other cell unchanged.
    pub fn set(&mut self, d: IndexPair, v: bool)
        requires
            old(self).wf(),
            in_bounds(old(self).size, d),
        ensures
            final(self).wf(),
            final(self).size == old(self).size,
            final(self).cell(d) == v,
            forall|e: IndexPair|
                in_bounds(final(self).size, e) && e != d ==> final(self).cell(e) == old(
                    self,
                ).cell(e),
            final(self).data@ == old(self).data@.update(old(self).pos(d), v),
    {
        proof {
            self.lemma_pos(d, d);
        }
        let p: usize = (d.row as usize) * (self.size.col as usize) + (d.col as usize);
        self.data[p] = v;
        proof {
            assert forall|e: IndexPair|
                in_bounds(self.size, e) && e != d implies self.cell(e) == old(self).cell(e) by {
                old(self).lemma_pos(e, d);
            }
        }
    }

    /// Counts the cells holding `true`.
    pub fn count(&self) -> (r: u16)
        requires
            self.wf(),
        ensures
            r as int == count_true(self.data@),
    {
        let n: usize = self.data.len();
        let mut i: usize = 0;
        let mut cnt: u16 = 0;
        while i < n
            invariant
                i <= n,
                n == self.data.len(),
                self.wf(),
                cnt as int == count_true(self.data@.take(i as int)),
                cnt as int <= i,
            decreases n - i,
        {
            proof {
                lemma_count_true_take_step(self.data@, i as int);
                lemma_count_true_bounds(self.data@.take(i as int));
            }
            if self.data[i] {
                cnt = cnt + 1;
            }
            i += 1;
        }
        proof {
            lemma_count_true_take_all(self.data@);
        }
        cnt
    }

    /// 1 when `(r, c)` names an in-bounds cell holding `true`, else 0.
    pub open spec fn ind(self, r: int, c: int) -> int {
        if 0 <= r < self.size.row && 0 <= c < self.size.col && self.cell(
            IndexPair { row: r as u16, col: c as u16 },
        ) {
            1int
        } else {
            0int
        }
    }

    /// Number of `true` cells among the up-to-8 cells adjacent to `d`,
    /// the center itself excluded.
    pub open spec fn neighbor_count(self, d: IndexPair) -> int {
        let r = d.row as int;
        let c = d.col as int;
        self.ind(r - 1, c - 1) + self.ind(r - 1, c) + self.ind(r - 1, c + 1) + self.ind(r, c - 1)
            + self.ind(r, c + 1) + self.ind(r + 1, c - 1) + self.ind(r + 1, c) + self.ind(
            r + 1,
            c + 1,
        )
    }

    /// Counts the `true` cells adjacent to `d`, excluding `d` itself.
    pub fn sum_neighbors(&self, d: IndexPair) -> (r: u16)
        requires
            self.wf(),
            in_bounds(self.size, d),
        ensures
            r as int == self.neighbor_count(d),
            r <= 8,
    {
        proof {
            let nr = self.size.row as int;
            let nc = self.size.col as int;
            assert(nr <= nr * nc && nc <= nr * nc) by (nonlinear_arith)
                requires
                    nr >= 1,
                    nc >= 1,
            ;
        }
        let mut cnt: u16 = 0;
        if d.row >= 1 {
            if d.col >= 1 && self.get(IndexPair { row: d.row - 1, col: d.col - 1 }) {
                cnt += 1;
            }
            if self.get(IndexPair { row: d.row - 1, col: d.col }) {
                cnt += 1;
            }
            if d.col + 1 < self.size.col && self.get(IndexPair { row: d.row - 1, col: d.col + 1 })
             {
                cnt += 1;
            }
        }
        if d.col >= 1 && self.get(IndexPair { row: d.row, col: d.col - 1 }) {
            cnt += 1;
        }
        if d.col + 1 < self.size.col && self.get(IndexPair { row: d.row, col: d.col + 1 }) {
            cnt += 1;
        }
        if d.row + 1 < self.size.row {
            if d.col >= 1 && self.get(IndexPair { row: d.row + 1, col: d.col - 1 }) {
                cnt += 1;
            }
            if self.get(IndexPair { row: d.row + 1, col: d.col }) {
                cnt += 1;
            }
            if d.col + 1 < self.size.col && self.get(IndexPair { row: d.row + 1, col: d.col + 1 })
             {
                cnt += 1;
            }
        }
        cnt
    }

    /// All cells of the clipped 3x3 block centered on `d` (the center
    /// included), each exactly once, in row-major order.
    pub fn around(&self, d: IndexPair) -> (r: Vec<IndexPair>)
        requires
            self.wf(),
            in_bounds(self.size, d),
        ensures
            forall|e: IndexPair| #[trigger]
                r@.contains(e) <==> (in_bounds(self.size, e) && near(d, e)),
            r@.no_duplicates(),
            r@.len() == block_len(self.size, d),
            forall|k: int| 0 <= k < r@.len() ==> #[trigger] r@[k] == block_at(self.size, d, k),
    {
        let rlo: u16 = if d.row >= 1 {
            d.row - 1
        } else {
            0
        };
        let rhi: u16 = if self.size.row - d.row > 2 {
            d.row + 2
        } else {
            self.size.row
        };
        let clo: u16 = if d.col >= 1 {
            d.col - 1
        } else {
            0
        };
        let chi: u16 = if self.size.col - d.col > 2 {
            d.col + 2
        } else {
            self.size.col
        };
        proof {
            assert(rlo == blk_row_lo(d));
            assert(rhi == blk_row_hi(self.size, d));
            assert(clo == blk_col_lo(d));
            assert(chi == blk_col_hi(self.size, d));
            assert((rlo - rlo) * (chi - clo) == 0) by (nonlinear_arith);
        }
        let mut out: Vec<IndexPair> = Vec::new();
        let mut r: u16 = rlo;
        while r < rhi
            invariant
                rlo == blk_row_lo(d),
                rhi == blk_row_hi(self.size, d),
                clo == blk_col_lo(d),
                chi == blk_col_hi(self.size, d),
                in_bounds(self.size, d),
                rlo <= r <= rhi,
                out@.len() == (r - rlo) * (chi - clo),
                forall|e: IndexPair|
                    out@.contains(e) <==> (rlo <= e.row < r && clo <= e.col < chi),
                out@.no_duplicates(),
                forall|k: int|
                    0 <= k < out@.len() ==> #[trigger] out@[k] == block_at(self.size, d, k),
            decreases rhi - r,
        {
            let mut c: u16 = clo;
            while c < chi
                invariant
                    rlo == blk_row_lo(d),
                    rhi == blk_row_hi(self.size, d),
                    clo == blk_col_lo(d),
                    chi == blk_col_hi(self.size, d),
                    in_bounds(self.size, d),
                    rlo <= r < rhi,
                    clo <= c <= chi,
                    out@.len() == (r - rlo) * (chi - clo) + (c - clo),
                    forall|e: IndexPair|
                        out@.contains(e) <==> ((rlo <= e.row < r && clo <= e.col < chi) || (e.row
                            == r && clo <= e.col < c)),
                    out@.no_duplicates(),
                    forall|k: int|
                        0 <= k < out@.len() ==> #[trigger] out@[k] == block_at(self.size, d, k),
                decreases chi - c,
            {
                broadcast use vstd::seq_lib::lemma_seq_contains_after_push;

                let p = IndexPair { row: r, col: c };
                proof {
                    assert(!out@.contains(p));
                    lemma_push_no_duplicates(out@, p);
                    let w = chi - clo;
                    let n0 = out@.len() as int;
                    vstd::arithmetic::div_mod::lemma_fundamental_div_mod_converse(
                        n0,
                        w,
                        r - rlo,
                        c - clo,
                    );
                    assert(n0 == (r - rlo) * w + (c - clo));
                    assert(block_at(self.size, d, n0) == p);
                }
                out.push(p);
                c += 1;
            }
            r += 1;
            proof {
                assert((r - rlo) * (chi - clo) == (r - 1 - rlo) * (chi - clo) + (chi - clo))
                    by (nonlinear_arith);
            }
        }
        proof {
            lemma_block_characterization(self.size, d);
        }
        out
    }
}

/// The set of cells inside the given half-open row and column ranges.
pub open spec fn rect_set(r0: int, r1: int, c0: int, c1: int) -> Set<IndexPair> {
    Set::new(|e: IndexPair| r0 <= e.row < r1 && c0 <= e.col < c1)
}

/// One row of cells is finite, with one cell per column of the range.
proof fn lemma_row_set_len(r: u16, c0: int, c1: int)
    requires
        0 <= c0 <= c1 <= u16::MAX + 1,
    ensures
        rect_set(r as int, r + 1, c0, c1).finite(),
        rect_set(r as int, r + 1, c0, c1).len() == c1 - c0,
    decreases c1 - c0,
{
    broadcast use vstd::set::group_set_axioms;

    if c1 == c0 {
        assert(rect_set(r as int, r + 1, c0, c1) =~= Set::<IndexPair>::empty());
    } else {
        lemma_row_set_len(r, c0, c1 - 1);
        let p = IndexPair { row: r, col: (c1 - 1) as u16 };
        assert(!rect_set(r as int, r + 1, c0, c1 - 1).contains(p));
        assert(rect_set(r as int, r + 1, c0, c1) =~= rect_set(r as int, r + 1, c0, c1 - 1).insert(
            p,
        ));
    }
}

/// A rectangle of cells is finite and holds width times height cells.
pub proof fn lemma_rect_set_len(r0: int, r1: int, c0: int, c1: int)
    requires
        0 <= r0 <= r1 <= u16::MAX + 1,
        0 <= c0 <= c1 <= u16::MAX + 1,
    ensures
        rect_set(r0, r1, c0, c1).finite(),
        rect_set(r0, r1, c0, c1).len() == (r1 - r0) * (c1 - c0),
    decreases r1 - r0,
{
    broadcast use vstd::set::group_set_axioms;

    if r1 == r0 {
        assert(rect_set(r0, r1, c0, c1) =~= Set::<IndexPair>::empty());
        assert((r1 - r0) * (c1 - c0) == 0) by (nonlinear_arith)
            requires
                r1 == r0,
        ;
    } else {
        lemma_rect_set_len(r0, r1 - 1, c0, c1);
        lemma_row_set_len((r1 - 1) as u16, c0, c1);
        let top = rect_set(r0, r1 - 1, c0, c1);
        let last = rect_set(r1 - 1, r1, c0, c1);
        assert(rect_set(r0, r1, c0, c1) =~= top + last);
        assert(top.disjoint(last));
        vstd::set_lib::lemma_set_disjoint_lens(top, last);
        assert((r1 - r0) * (c1 - c0) == (r1 - 1 - r0) * (c1 - c0) + (c1 - c0))
            by (nonlinear_arith);
    }
}

/// A neighbor count is zero exactly when no adjacent in-bounds cell holds
/// `true`: the count ranges over the adjacent cells alone, never the center.
pub proof fn lemma_neighbor_count_zero(g: Grid, d: IndexPair)
    requires
        in_bounds(g.size, d),
    ensures
        (g.neighbor_count(d) == 0) <==> (forall|e: IndexPair|
            in_bounds(g.size, e) && is_neighbor(d, e) ==> !g.cell(e)),
{
    let r = d.row as int;
    let c = d.col as int;
    if g.neighbor_count(d) == 0 {
        assert forall|e: IndexPair| in_bounds(g.size, e) && is_neighbor(d, e) implies !g.cell(
            e,
        ) by {
            let er = e.row as int;
            let ec = e.col as int;
            assert(e == (IndexPair { row: er as u16, col: ec as u16 }));
            assert(r - 1 <= er <= r + 1 && c - 1 <= ec <= c + 1 && !(er == r && ec == c));
            assert(g.ind(er, ec) == 0);
        }
    }
    if forall|e: IndexPair| in_bounds(g.size, e) && is_neighbor(d, e) ==> !g.cell(e) {
        assert forall|dr: int, dc: int|
            -1 <= dr <= 1 && -1 <= dc <= 1 && !(dr == 0 && dc == 0) implies #[trigger] g.ind(
            r + dr,
            c + dc,
        ) == 0 by {
            if 0 <= r + dr < g.size.row && 0 <= c + dc < g.size.col {
                let e = IndexPair { row: (r + dr) as u16, col: (c + dc) as u16 };
                assert(in_bounds(g.size, e) && is_neighbor(d, e));
                assert(!g.cell(e));
            }
        }
        assert(g.ind(r - 1, c - 1) == 0 && g.ind(r - 1, c) == 0 && g.ind(r - 1, c + 1) == 0
            && g.ind(r, c - 1) == 0 && g.ind(r, c + 1) == 0 && g.ind(r + 1, c - 1) == 0 && g.ind(
            r + 1,
            c,
        ) == 0 && g.ind(r + 1, c + 1) == 0);
    }
}

/// The cells a neighbor count examines: all in-bounds cells adjacent to
/// `d`, the center itself excluded.
pub open spec fn neighbor_cells(size: IndexPair, d: IndexPair) -> Set<IndexPair> {
    Set::new(|e: IndexPair| in_bounds(size, e) && is_neighbor(d, e))
}

/// The examined neighborhood is the clipped 3x3 block without its center.
pub proof fn lemma_neighbor_cells_count(size: IndexPair, d: IndexPair)
    requires
        in_bounds(size, d),
    ensures
        neighbor_cells(size, d).finite(),
        neighbor_cells(size, d).len() == block_len(size, d) - 1,
{
    broadcast use vstd::set::group_set_axioms;

    let blk = rect_set(blk_row_lo(d), blk_row_hi(size, d), blk_col_lo(d), blk_col_hi(size, d));
    lemma_rect_set_len(blk_row_lo(d), blk_row_hi(size, d), blk_col_lo(d), blk_col_hi(size, d));
    lemma_block_characterization(size, d);
    assert(blk.contains(d));
    assert(neighbor_cells(size, d) =~= blk.remove(d));
}

/// How many neighbor cells a count on an N x N grid examines: exactly 3
/// from a corner cell, 5 from an edge (non-corner) cell, and 8 from an
/// interior cell — never the cell itself.
pub proof fn lemma_neighborhood_sizes(n: u16, d: IndexPair)
    requires
        in_bounds(IndexPair { row: n, col: n }, d),
    ensures
        (n >= 2 && (d.row == 0 || d.row == n - 1) && (d.col == 0 || d.col == n - 1))
            ==> neighbor_cells(IndexPair { row: n, col: n }, d).len() == 3,
        (n >= 3 && (d.row == 0 || d.row == n - 1) && 0 < d.col < n - 1) ==> neighbor_cells(
            IndexPair { row: n, col: n },
            d,
        ).len() == 5,
        (n >= 3 && 0 < d.row < n - 1 && (d.col == 0 || d.col == n - 1)) ==> neighbor_cells(
            IndexPair { row: n, col: n },
            d,
        ).len() == 5,
        (0 < d.row < n - 1 && 0 < d.col < n - 1) ==> neighbor_cells(
            IndexPair { row: n, col: n },
            d,
        ).len() == 8,
{
    let size = IndexPair { row: n, col: n };
    lemma_neighbor_cells_count(size, d);
    lemma_block_characterization(size, d);
    let rn = blk_row_hi(size, d) - blk_row_lo(d);
    let cn = blk_col_hi(size, d) - blk_col_lo(d);
    assert(rn == if d.row == 0 || d.row == n - 1 {
        if n >= 2 {
            2int
        } else {
            1int
        }
    } else {
        3int
    });
    assert(cn == if d.col == 0 || d.col == n - 1 {
        if n >= 2 {
            2int
        } else {
            1int
        }
    } else {
        3int
    });
    assert(rn == 2 && cn == 2 ==> rn * cn == 4) by (nonlinear_arith);
    assert(rn == 2 && cn == 3 ==> rn * cn == 6) by (nonlinear_arith);
    assert(rn == 3 && cn == 2 ==> rn * cn == 6) by (nonlinear_arith);
    assert(rn == 3 && cn == 3 ==> rn * cn == 9) by (nonlinear_arith);
}

/// Number of positions holding `true` in `a` but not in `b` — for the win
/// check, the opened cells that are not mines.
pub open spec fn count_and_not(a: Seq<bool>, b: Seq<bool>) -> int
    decreases a.len(),
{
    if a.len() == 0 {
        0
    } else {
        count_and_not(a.drop_last(), b.drop_last()) + if a.last() && !b.last() {
            1int
        } else {
            0int
        }
    }
}

pub proof fn lemma_count_and_not_bounds(a: Seq<bool>, b: Seq<bool>)
    requires
        a.len() == b.len(),
    ensures
        0 <= count_and_not(a, b) <= a.len(),
    decreases a.len(),
{
    if a.len() > 0 {
        lemma_count_and_not_bounds(a.drop_last(), b.drop_last());
    }
}

/// Extending both prefixes by one position adds that position's contribution.
pub proof fn lemma_count_and_not_take_step(a: Seq<bool>, b: Seq<bool>, i: int)
    requires
        a.len() == b.len(),
        0 <= i < a.len(),
    ensures
        count_and_not(a.take(i + 1), b.take(i + 1)) == count_and_not(a.take(i), b.take(i)) + if a[i]
            && !b[i] {
            1int
        } else {
            0int
        },
{
    assert(a.take(i + 1).drop_last() =~= a.take(i));
    assert(b.take(i + 1).drop_last() =~= b.take(i));
    assert(a.take(i + 1).last() == a[i] && b.take(i + 1).last() == b[i]);
}

pub proof fn lemma_count_and_not_take_all(a: Seq<bool>, b: Seq<bool>)
    ensures
        count_and_not(a.take(a.len() as int), b.take(b.len() as int)) == count_and_not(a, b),
{
    assert(a.take(a.len() as int) =~= a);
    assert(b.take(b.len() as int) =~= b);
}

/// The positions counted by `count_and_not(a, b)` and those counted by
/// `count_true(b)` are disjoint, so together they never exceed the length;
/// they exhaust it exactly when every position is covered by `a` or `b`.
pub proof fn lemma_count_and_not_full(a: Seq<bool>, b: Seq<bool>)
    requires
        a.len() == b.len(),
    ensures
        count_and_not(a, b) + count_true(b) <= a.len(),
        (count_and_not(a, b) + count_true(b) == a.len()) <==> (forall|j: int|
            #![trigger a[j]]
            0 <= j < a.len() ==> (a[j] || b[j])),
    decreases a.len(),
{
    if a.len() > 0 {
        let a1 = a.drop_last();
        let b1 = b.drop_last();
        lemma_count_and_not_full(a1, b1);
        assert(a.last() == a[a.len() - 1] && b.last() == b[b.len() - 1]);
        if count_and_not(a, b) + count_true(b) == a.len() {
            assert(count_and_not(a1, b1) + count_true(b1) == a1.len());
            assert forall|j: int| #![trigger a[j]] 0 <= j < a.len() implies (a[j] || b[j]) by {
                if j < a.len() - 1 {
                    assert(a1[j] || b1[j]);
                    assert(a1[j] == a[j] && b1[j] == b[j]);
                }
            }
        }
        if forall|j: int| #![trigger a[j]] 0 <= j < a.len() ==> (a[j] || b[j]) {
            assert forall|j: int| #![trigger a1[j]] 0 <= j < a1.len() implies (a1[j] || b1[j]) by {
                assert(a1[j] == a[j] && b1[j] == b[j]);
                assert(a[j] || b[j]);
            }
            assert(a[a.len() - 1] || b[a.len() - 1]);
        }
    }
}

/// Every flat index names a cell: the row-major layout is onto.
pub proof fn lemma_index_to_cell(g: Grid, j: int)
    requires
        g.wf(),
        0 <= j < g.data@.len(),
    ensures
        exists|d: IndexPair| in_bounds(g.size, d) && #[trigger] g.pos(d) == j,
{
    let nr = g.size.row as int;
    let nc = g.size.col as int;
    assert(nc > 0 && nr > 0) by (nonlinear_arith)
        requires
            0 <= j < nr * nc,
            nr >= 0,
            nc >= 0,
    ;
    assert(nr <= nr * nc && nc <= nr * nc) by (nonlinear_arith)
        requires
            nr >= 1,
            nc >= 1,
    ;
    vstd::arithmetic::div_mod::lemma_fundamental_div_mod(j, nc);
    vstd::arithmetic::div_mod::lemma_mod_pos_bound(j, nc);
    vstd::arithmetic::div_mod::lemma_div_pos_is_pos(j, nc);
    let dr = j / nc;
    let dc = j % nc;
    assert(dr < nr) by {
        if dr >= nr {
            vstd::arithmetic::mul::lemma_mul_inequality(nr, dr, nc);
            assert(false);
        }
    }
    let d = IndexPair { row: dr as u16, col: dc as u16 };
    assert(0 <= dr < nr && 0 <= dc < nc);
    assert(d.row as int == dr && d.col as int == dc);
    assert(nc * dr + dc == j);
    assert(dr * nc == nc * dr) by (nonlinear_arith);
    assert(in_bounds(g.size, d) && g.pos(d) == j);
}

/// A sequence without `true` entries counts zero, and conversely.
pub proof fn lemma_count_zero_all_false(s: Seq<bool>)
    requires
        count_true(s) == 0,
    ensures
        forall|j: int| 0 <= j < s.len() ==> !s[j],
    decreases s.len(),
{
    if s.len() > 0 {
        lemma_count_true_bounds(s.drop_last());
        lemma_count_zero_all_false(s.drop_last());
        assert forall|j: int| 0 <= j < s.len() implies !s[j] by {
            if j < s.len() - 1 {
                assert(!s.drop_last()[j]);
            }
        }
    }
}

/// A sequence of all-`false` entries has no `true` entry.
pub proof fn lemma_all_false_count_zero(s: Seq<bool>)
    requires
        forall|j: int| 0 <= j < s.len() ==> !s[j],
    ensures
        count_true(s) == 0,
    decreases s.len(),
{
    if s.len() > 0 {
        lemma_all_false_count_zero(s.drop_last());
    }
}

/// Pushing an element that is not yet present keeps a sequence duplicate-free.
pub proof fn lemma_push_no_duplicates<A>(s: Seq<A>, x: A)
    requires
        s.no_duplicates(),
        !s.contains(x),
    ensures
        s.push(x).no_duplicates(),
{
    let t = s.push(x);
    assert forall|i: int, j: int| 0 <= i < t.len() && 0 <= j < t.len() && i != j implies t[i]
        != t[j] by {
        if i < s.len() && j < s.len() {
            assert(s[i] == t[i] && s[j] == t[j]);
        } else if i < s.len() {
            assert(t[j] == x && t[i] == s[i]);
            assert(s.contains(s[i]) ==> true);
        } else {
            assert(t[i] == x && t[j] == s[j]);
        }
    }
}

} // verus!
