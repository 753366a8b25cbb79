//! The minefield: mine placement, opening with flood-fill, and flags.

use crate::grid::{
    block_len, count_and_not, count_true, in_bounds, lemma_block_characterization,
    lemma_count_and_not_bounds, lemma_count_and_not_take_all, lemma_count_and_not_take_step,
    lemma_count_true_bounds, lemma_count_true_update, lemma_count_zero_all_false,
    lemma_push_no_duplicates, near, rect_set, lemma_rect_set_len, Grid, IndexPair,
};
use rand::seq::SliceRandom;
use vstd::prelude::*;

verus! {

/// What a click did: hit a mine, or not.
#[derive(Copy, Clone, PartialEq, Eq, Structural, Debug)]
pub enum ClickResult {
    Safe,
    Exploded,
}

/// The requested mine count does not fit the grid: even the most favorable
/// first click would leave fewer eligible cells than mines to place.
#[derive(Copy, Clone, PartialEq, Eq, Structural, Debug)]
pub struct ConfigError;

/// The minefield: three same-sized grids over one coordinate space.
pub struct Field {
    pub size: IndexPair,
    pub n_mines: u16,
    pub are_mines_allocated: bool,
    pub mines: Grid,
    pub opened: Grid,
    pub flags: Grid,
}

/// Size of the smallest possible exclusion zone: the clipped 3x3 block
/// around a corner click.
pub open spec fn min_block(size: IndexPair) -> int {
    (if size.row >= 2 {
        2int
    } else {
        size.row as int
    }) * (if size.col >= 2 {
        2int
    } else {
        size.col as int
    })
}

impl Field {
    pub open spec fn total(self) -> int {
        self.size.row * self.size.col
    }

    pub open spec fn mine_at(self, d: IndexPair) -> bool {
        self.mines.cell(d)
    }

    pub open spec fn opened_at(self, d: IndexPair) -> bool {
        self.opened.cell(d)
    }

    pub open spec fn flagged_at(self, d: IndexPair) -> bool {
        self.flags.cell(d)
    }

    /// Number of mines among the up-to-8 cells adjacent to `d`.
    pub open spec fn neighbor_mines(self, d: IndexPair) -> int {
        self.mines.neighbor_count(d)
    }

    /// Grids share the field's size; an opened cell is never flagged; mines
    /// are all absent before allocation and number exactly `n_mines` after.
    pub open spec fn wf(self) -> bool {
        &&& self.mines.wf()
        &&& self.opened.wf()
        &&& self.flags.wf()
        &&& self.mines.size == self.size
        &&& self.opened.size == self.size
        &&& self.flags.size == self.size
        &&& forall|d: IndexPair|
            in_bounds(self.size, d) ==> !(self.opened_at(d) && self.flagged_at(d))
        &&& !self.are_mines_allocated ==> count_true(self.mines.data@) == 0
        &&& self.are_mines_allocated ==> count_true(self.mines.data@) == self.n_mines
    }

    /// An unopened non-mine cell with no adjacent mine: the flood-fill
    /// cascades through such cells.
    pub open spec fn zero_cell(self, d: IndexPair) -> bool {
        &&& in_bounds(self.size, d)
        &&& !self.mine_at(d)
        &&& self.neighbor_mines(d) == 0
    }

    /// A cell the cascade may pass through: an unopened zero cell.
    pub open spec fn expandable(self, d: IndexPair) -> bool {
        !self.opened_at(d) && self.zero_cell(d)
    }
}

/// `p` witnesses that opening `s` reaches `d`: a chain of adjacent cells
/// starting at `s` whose cells before the last are all unopened zero cells,
/// ending at an unopened non-mine cell `d`.
pub open spec fn opens_path(pre: Field, s: IndexPair, d: IndexPair, p: Seq<IndexPair>) -> bool {
    &&& p.len() >= 1
    &&& p[0] == s
    &&& p.last() == d
    &&& forall|i: int|
        0 <= i < p.len() - 1 ==> pre.expandable(#[trigger] p[i]) && near(p[i], p[i + 1])
    &&& in_bounds(pre.size, d)
    &&& !pre.mine_at(d)
    &&& !pre.opened_at(d)
}

/// Opening `s` in `pre` reaches `d` through the cascade.
pub open spec fn opens_to(pre: Field, s: IndexPair, d: IndexPair) -> bool {
    exists|p: Seq<IndexPair>| opens_path(pre, s, d, p)
}

/// The set of cells that a call `open_at(s)` newly opens: the clicked cell
/// itself plus everything the cascade reaches.
pub open spec fn opens_cell(pre: Field, s: IndexPair, d: IndexPair) -> bool {
    d == s || opens_to(pre, s, d)
}

/// The full effect of `open_at(s)`: nothing changes when `s` was already
/// open; otherwise exactly the cells of `opens_cell` become open, their flags
/// are cleared, and nothing else moves.
pub open spec fn open_rel(pre: Field, post: Field, s: IndexPair) -> bool {
    &&& post.size == pre.size
    &&& post.n_mines == pre.n_mines
    &&& post.are_mines_allocated == pre.are_mines_allocated
    &&& post.mines == pre.mines
    &&& post.opened.size == pre.opened.size
    &&& post.flags.size == pre.flags.size
    &&& if pre.opened_at(s) {
        post == pre
    } else {
        (forall|d: IndexPair|
            in_bounds(pre.size, d) ==> post.opened_at(d) == (pre.opened_at(d) || opens_cell(
                pre,
                s,
                d,
            ))) && (forall|d: IndexPair|
            in_bounds(pre.size, d) ==> post.flagged_at(d) == (pre.flagged_at(d) && !opens_cell(
                pre,
                s,
                d,
            )))
    }
}

/// The full effect of `handle_click(index)` returning `r`: mines exist
/// afterwards (allocated now if this was the first click, sparing the
/// clicked neighborhood), a flagged cell blocks the click, an unflagged cell
/// opens through `open_rel`, and the click explodes exactly when the clicked
/// cell holds a mine and no flag.
pub open spec fn click_rel(pre: Field, post: Field, index: IndexPair, r: ClickResult) -> bool {
    &&& post.size == pre.size
    &&& post.n_mines == pre.n_mines
    &&& post.are_mines_allocated
    &&& pre.are_mines_allocated ==> post.mines == pre.mines
    &&& !pre.are_mines_allocated ==> forall|d: IndexPair|
        in_bounds(pre.size, d) && near(index, d) ==> !post.mine_at(d)
    &&& count_true(post.mines.data@) == pre.n_mines
    &&& (r == ClickResult::Exploded) <==> (!pre.flagged_at(index) && post.mine_at(index))
    &&& {
        let mid = Field { mines: post.mines, are_mines_allocated: true, ..pre };
        if pre.flagged_at(index) {
            post == mid
        } else {
            open_rel(mid, post, index)
        }
    }
}

/// The full effect of `handle_force_click(index)`: the flag toggles on an
/// unopened cell; an opened cell leaves the field untouched.
pub open spec fn force_click_rel(pre: Field, post: Field, index: IndexPair) -> bool {
    &&& post.size == pre.size
    &&& post.n_mines == pre.n_mines
    &&& post.are_mines_allocated == pre.are_mines_allocated
    &&& post.mines == pre.mines
    &&& post.opened == pre.opened
    &&& pre.opened_at(index) ==> post == pre
    &&& !pre.opened_at(index) ==> forall|d: IndexPair|
        in_bounds(pre.size, d) ==> post.flagged_at(d) == (if d == index {
            !pre.flagged_at(index)
        } else {
            pre.flagged_at(d)
        })
}

/// Every cell adjacent to `c` that is not a mine is open: `c` has been fully
/// expanded by the cascade.
pub open spec fn neighbors_opened(cur: Field, c: IndexPair) -> bool {
    forall|e: IndexPair|
        in_bounds(cur.size, e) && near(c, e) && !cur.mine_at(e) ==> cur.opened_at(e)
}

/// The flood-fill loop invariant, relating the field before the call, the
/// field now, and the worklist.
spec fn open_inv(pre: Field, cur: Field, s: IndexPair, stack: Seq<IndexPair>) -> bool {
    &&& cur.wf()
    &&& cur.size == pre.size
    &&& cur.n_mines == pre.n_mines
    &&& cur.are_mines_allocated == pre.are_mines_allocated
    &&& cur.mines == pre.mines
    &&& cur.opened_at(s)
    &&& forall|d: IndexPair|
        in_bounds(pre.size, d) && #[trigger] cur.opened_at(d) ==> (pre.opened_at(d) || opens_cell(
            pre,
            s,
            d,
        ))
    &&& forall|d: IndexPair|
        in_bounds(pre.size, d) && #[trigger] pre.opened_at(d) ==> cur.opened_at(d)
    &&& forall|d: IndexPair|
        in_bounds(pre.size, d) ==> #[trigger] cur.flagged_at(d) == (pre.flagged_at(d) && !(
        cur.opened_at(d) && !pre.opened_at(d)))
    &&& forall|i: int|
        0 <= i < stack.len() ==> {
            &&& in_bounds(pre.size, #[trigger] stack[i])
            &&& pre.zero_cell(stack[i])
            &&& !pre.opened_at(stack[i])
            &&& cur.opened_at(stack[i])
            &&& opens_cell(pre, s, stack[i])
        }
}

/// The closure part of the invariant: every newly opened zero cell that is
/// not waiting on the worklist has been fully expanded.
spec fn open_closure(pre: Field, cur: Field, stack: Seq<IndexPair>) -> bool {
    forall|d: IndexPair|
        in_bounds(pre.size, d) && #[trigger] cur.opened_at(d) && !pre.opened_at(d)
            && pre.zero_cell(d) && !stack.contains(d) ==> neighbors_opened(cur, d)
}

/// Relies on rand's `SliceRandom::shuffle`: a Fisher-Yates pass of in-place
/// swaps, so the vector afterwards holds exactly the elements it held
/// before, rearranged.
#[verifier::external_body]
fn shuffle_cells(v: &mut Vec<IndexPair>)
    ensures
        final(v)@.to_multiset() == old(v)@.to_multiset(),
{
    let mut rng = rand::thread_rng();
    v.shuffle(&mut rng);
}

/// A permutation of a duplicate-free sequence is duplicate-free, has the
/// same length, and holds the same elements.
proof fn lemma_permutation_preserves(a: Seq<IndexPair>, b: Seq<IndexPair>)
    requires
        a.to_multiset() == b.to_multiset(),
        a.no_duplicates(),
    ensures
        b.no_duplicates(),
        a.len() == b.len(),
        forall|e: IndexPair| b.contains(e) <==> a.contains(e),
{
    a.to_multiset_ensures();
    b.to_multiset_ensures();
    assert(a.len() == a.to_multiset().len());
    assert(b.len() == b.to_multiset().len());
    a.lemma_multiset_has_no_duplicates();
    assert forall|x: IndexPair| b.to_multiset().contains(x) implies b.to_multiset().count(x)
        == 1 by {
        assert(a.to_multiset().contains(x));
        assert(a.to_multiset().count(x) == 1);
    }
    b.lemma_multiset_has_no_duplicates_conv();
    assert forall|e: IndexPair| b.contains(e) <==> a.contains(e) by {
        assert(b.contains(e) <==> b.to_multiset().count(e) > 0);
        assert(a.contains(e) <==> a.to_multiset().count(e) > 0);
    }
}

impl Field {
    /// Builds an empty field. The configuration is rejected exactly when the
    /// mine count exceeds the eligible cells left by the most favorable
    /// first click (a corner, whose exclusion zone is smallest); no click at
    /// all could then allocate the mines.
    pub fn new(size: IndexPair, n_mines: u16) -> (r: Result<Field, ConfigError>)
        requires
            size.row * size.col <= u16::MAX,
        ensures
            r is Ok <==> n_mines + min_block(size) <= size.row * size.col,
            r matches Ok(f) ==> {
                &&& f.wf()
                &&& f.size == size
                &&& f.n_mines == n_mines
                &&& !f.are_mines_allocated
                &&& forall|d: IndexPair|
                    in_bounds(size, d) ==> !f.mine_at(d) && !f.opened_at(d) && !f.flagged_at(d)
            },
    {
        let corner_rows: u16 = if size.row >= 2 {
            2
        } else {
            size.row
        };
        let corner_cols: u16 = if size.col >= 2 {
            2
        } else {
            size.col
        };
        let corner: u64 = (corner_rows as u64) * (corner_cols as u64);
        let total: u64 = (size.row as u64) * (size.col as u64);
        proof {
            assert(corner_rows as int * corner_cols as int <= 4) by (nonlinear_arith)
                requires
                    0 <= corner_rows <= 2,
                    0 <= corner_cols <= 2,
            ;
        }
        if (n_mines as u64) + corner > total {
            return Err(ConfigError);
        }
        Ok(
            Field {
                size,
                n_mines,
                are_mines_allocated: false,
                mines: Grid::new(size),
                opened: Grid::new(size),
                flags: Grid::new(size),
            },
        )
    }

    /// Places `n_mines` mines uniformly at random among the cells outside
    /// the exclusion zone of the first click: the clicked cell and its
    /// clipped 3x3 neighborhood stay mine-free.
    pub fn allocate_mines(&mut self, starting_index: IndexPair)
        requires
            old(self).wf(),
            !old(self).are_mines_allocated,
            in_bounds(old(self).size, starting_index),
            old(self).n_mines + block_len(old(self).size, starting_index) <= old(self).total(),
        ensures
            final(self).wf(),
            final(self).size == old(self).size,
            final(self).n_mines == old(self).n_mines,
            final(self).are_mines_allocated,
            final(self).opened == old(self).opened,
            final(self).flags == old(self).flags,
            forall|d: IndexPair|
                in_bounds(old(self).size, d) && near(starting_index, d) ==> !final(self).mine_at(
                    d,
                ),
            count_true(final(self).mines.data@) == old(self).n_mines,
    {
        let rows = self.size.row;
        let cols = self.size.col;
        let mut eligible: Vec<IndexPair> = Vec::new();
        let mut r: u16 = 0;
        while r < rows
            invariant
                rows == self.size.row,
                cols == self.size.col,
                in_bounds(self.size, starting_index),
                r <= rows,
                forall|e: IndexPair| #[trigger]
                    eligible@.contains(e) <==> (e.row < r && e.col < cols && !near(
                        starting_index,
                        e,
                    )),
                eligible@.no_duplicates(),
            decreases rows - r,
        {
            let mut c: u16 = 0;
            while c < cols
                invariant
                    rows == self.size.row,
                    cols == self.size.col,
                    in_bounds(self.size, starting_index),
                    r < rows,
                    c <= cols,
                    forall|e: IndexPair| #[trigger]
                        eligible@.contains(e) <==> (((e.row < r && e.col < cols) || (e.row == r
                            && e.col < c)) && !near(starting_index, e)),
                    eligible@.no_duplicates(),
                decreases cols - c,
            {
                broadcast use vstd::seq_lib::lemma_seq_contains_after_push;

                let p = IndexPair { row: r, col: c };
                let dr: i32 = p.row as i32 - starting_index.row as i32;
                let dc: i32 = p.col as i32 - starting_index.col as i32;
                if !(-1 <= dr && dr <= 1 && -1 <= dc && dc <= 1) {
                    proof {
                        assert(!near(starting_index, p));
                        assert(!eligible@.contains(p));
                        lemma_push_no_duplicates(eligible@, p);
                    }
                    eligible.push(p);
                }
                c += 1;
            }
            r += 1;
        }
        proof {
            broadcast use vstd::set::group_set_axioms;

            let all = rect_set(0, rows as int, 0, cols as int);
            let blk = rect_set(
                crate::grid::blk_row_lo(starting_index),
                crate::grid::blk_row_hi(self.size, starting_index),
                crate::grid::blk_col_lo(starting_index),
                crate::grid::blk_col_hi(self.size, starting_index),
            );
            lemma_block_characterization(self.size, starting_index);
            assert(eligible@.to_set() =~= all.difference(blk));
            lemma_rect_set_len(0, rows as int, 0, cols as int);
            lemma_rect_set_len(
                crate::grid::blk_row_lo(starting_index),
                crate::grid::blk_row_hi(self.size, starting_index),
                crate::grid::blk_col_lo(starting_index),
                crate::grid::blk_col_hi(self.size, starting_index),
            );
            assert(blk.subset_of(all));
            assert(all =~= all.difference(blk) + blk);
            assert(all.difference(blk).disjoint(blk));
            vstd::set_lib::lemma_set_disjoint_lens(all.difference(blk), blk);
            eligible@.unique_seq_to_set();
            assert(eligible@.len() == self.total() - block_len(self.size, starting_index));
        }
        let ghost before_shuffle = eligible@;
        shuffle_cells(&mut eligible);
        proof {
            lemma_permutation_preserves(before_shuffle, eligible@);
        }
        let n: usize = self.n_mines as usize;
        let ghost pre = *self;
        proof {
            lemma_count_zero_all_false(self.mines.data@);
            assert forall|d: IndexPair| in_bounds(pre.size, d) implies !self.mines.cell(d) by {
                self.mines.lemma_pos(d, d);
            }
            assert(eligible@.take(0).len() == 0);
        }
        let mut i: usize = 0;
        while i < n
            invariant
                pre.wf(),
                !pre.are_mines_allocated,
                self.size == pre.size,
                self.n_mines == pre.n_mines,
                self.are_mines_allocated == pre.are_mines_allocated,
                self.opened == pre.opened,
                self.flags == pre.flags,
                self.mines.wf(),
                self.mines.size == pre.size,
                n == pre.n_mines as usize,
                i <= n,
                n <= eligible.len(),
                forall|e: IndexPair| #[trigger]
                    eligible@.contains(e) <==> (in_bounds(pre.size, e) && !near(
                        starting_index,
                        e,
                    )),
                eligible@.no_duplicates(),
                count_true(self.mines.data@) == i,
                forall|d: IndexPair|
                    in_bounds(pre.size, d) ==> (#[trigger] self.mines.cell(d)
                        <==> eligible@.take(i as int).contains(d)),
            decreases n - i,
        {
            broadcast use vstd::seq_lib::lemma_seq_contains_after_push;

            let p = eligible[i];
            proof {
                assert(eligible@.contains(eligible@[i as int]));
                if self.mines.cell(p) {
                    let t = eligible@.take(i as int);
                    assert(t.contains(p));
                    let j = choose|j: int| 0 <= j < t.len() && t[j] == p;
                    assert(t[j] == eligible@[j]);
                    assert(eligible@[j] == eligible@[i as int] && j < i);
                    assert(false);
                }
            }
            let ghost g0 = self.mines;
            self.mines.set(p, true);
            proof {
                g0.lemma_pos(p, p);
                lemma_count_true_update(g0.data@, g0.pos(p), true);
                assert(eligible@.take(i + 1) =~= eligible@.take(i as int).push(
                    eligible@[i as int],
                ));
            }
            i += 1;
        }
        self.are_mines_allocated = true;
        proof {
            assert forall|d: IndexPair|
                in_bounds(pre.size, d) && near(starting_index, d) implies !self.mine_at(d) by {
                if self.mines.cell(d) {
                    let t = eligible@.take(n as int);
                    assert(t.contains(d));
                    let j = choose|j: int| 0 <= j < t.len() && t[j] == d;
                    assert(t[j] == eligible@[j]);
                    assert(eligible@.contains(d)) by {
                        assert(eligible@[j] == d);
                    }
                }
            }
            assert forall|d: IndexPair|
                in_bounds(self.size, d) implies !(self.opened_at(d) && self.flagged_at(d)) by {
                assert(!(pre.opened_at(d) && pre.flagged_at(d)));
            }
        }
    }

    /// Toggles the flag on an unopened cell; an opened cell is left alone.
    /// Never explodes.
    pub fn handle_force_click(&mut self, index: IndexPair) -> (r: ClickResult)
        requires
            old(self).wf(),
            in_bounds(old(self).size, index),
        ensures
            final(self).wf(),
            r == ClickResult::Safe,
            force_click_rel(*old(self), *final(self), index),
    {
        if !self.opened.get(index) {
            let f = self.flags.get(index);
            self.flags.set(index, !f);
            proof {
                assert forall|d: IndexPair|
                    in_bounds(self.size, d) implies !(self.opened_at(d) && self.flagged_at(
                    d,
                )) by {
                    assert(!(old(self).opened_at(d) && old(self).flagged_at(d)));
                }
            }
        }
        ClickResult::Safe
    }
}

/// Cells not yet opened, the part of the measure that shrinks as the
/// cascade advances.
spec fn unopened(f: Field) -> int {
    f.opened.data@.len() - count_true(f.opened.data@)
}

/// An unopened non-mine cell in bounds is reached by its own click.
proof fn lemma_opens_self(pre: Field, s: IndexPair)
    requires
        in_bounds(pre.size, s),
        !pre.opened_at(s),
        !pre.mine_at(s),
    ensures
        opens_to(pre, s, s),
{
    let p = seq![s];
    assert(opens_path(pre, s, s, p));
}

/// The cascade extends one step: from a reached unopened zero cell to any
/// adjacent unopened non-mine cell.
proof fn lemma_opens_step(pre: Field, s: IndexPair, c: IndexPair, d: IndexPair)
    requires
        opens_cell(pre, s, c),
        pre.expandable(c),
        near(c, d),
        in_bounds(pre.size, d),
        !pre.mine_at(d),
        !pre.opened_at(d),
    ensures
        opens_to(pre, s, d),
{
    if opens_to(pre, s, c) {
        let p = choose|p: Seq<IndexPair>| opens_path(pre, s, c, p);
        let q = p.push(d);
        assert(q[0] == p[0]);
        assert(q.last() == d);
        assert forall|i: int|
            0 <= i < q.len() - 1 implies pre.expandable(#[trigger] q[i]) && near(q[i], q[i + 1]) by {
            if i < p.len() - 1 {
                assert(q[i] == p[i] && q[i + 1] == p[i + 1]);
            } else {
                assert(q[i] == p[p.len() - 1] && p[p.len() - 1] == p.last() && p.last() == c);
                assert(q[i + 1] == d);
            }
        }
        assert(opens_path(pre, s, d, q));
    } else {
        let q = seq![s, d];
        assert(q[0] == s && q.last() == d && q.len() == 2);
        assert forall|i: int|
            0 <= i < q.len() - 1 implies pre.expandable(#[trigger] q[i]) && near(q[i], q[i + 1]) by {
            assert(q[0] == s && s == c && q[1] == d);
        }
        assert(opens_path(pre, s, d, q));
    }
}

/// A cell that is opened, mined, or next to a mine cascades nowhere beyond
/// itself.
pub(crate) proof fn lemma_no_opens_from_blocked(pre: Field, s: IndexPair)
    requires
        !pre.expandable(s),
    ensures
        forall|d: IndexPair| #[trigger] opens_to(pre, s, d) ==> d == s,
{
    assert forall|d: IndexPair| #[trigger] opens_to(pre, s, d) implies d == s by {
        let p = choose|p: Seq<IndexPair>| opens_path(pre, s, d, p);
        if p.len() >= 2 {
            assert(pre.expandable(p[0]));
            assert(false);
        }
    }
}

/// Opening more cells cannot unmake a fully expanded cell.
proof fn lemma_neighbors_opened_monotone(a: Field, b: Field, c: IndexPair)
    requires
        neighbors_opened(a, c),
        b.size == a.size,
        b.mines == a.mines,
        forall|e: IndexPair|
            in_bounds(a.size, e) && #[trigger] a.opened_at(e) ==> b.opened_at(e),
    ensures
        neighbors_opened(b, c),
{
    assert forall|e: IndexPair|
        in_bounds(b.size, e) && near(c, e) && !b.mine_at(e) implies b.opened_at(e) by {
        assert(a.mine_at(e) == b.mine_at(e));
        assert(a.opened_at(e));
    }
}

/// Once the worklist is empty and every newly opened zero cell is fully
/// expanded, every cell with a cascade path from `s` is open.
proof fn lemma_paths_opened(pre: Field, cur: Field, s: IndexPair, p: Seq<IndexPair>, d: IndexPair)
    requires
        opens_path(pre, s, d, p),
        cur.size == pre.size,
        cur.mines == pre.mines,
        cur.opened_at(s),
        forall|e: IndexPair|
            in_bounds(pre.size, e) && #[trigger] pre.opened_at(e) ==> cur.opened_at(e),
        open_closure(pre, cur, Seq::<IndexPair>::empty()),
    ensures
        cur.opened_at(d),
    decreases p.len(),
{
    if p.len() == 1 {
        assert(d == s);
    } else {
        let q = p.drop_last();
        let c = p[p.len() - 2];
        assert(q.last() == c && q[0] == s && q.len() == p.len() - 1);
        assert(pre.expandable(c));
        assert forall|i: int|
            0 <= i < q.len() - 1 implies pre.expandable(#[trigger] q[i]) && near(q[i], q[i + 1]) by {
            assert(q[i] == p[i] && q[i + 1] == p[i + 1]);
        }
        assert(opens_path(pre, s, c, q));
        lemma_paths_opened(pre, cur, s, q, c);
        assert(cur.opened_at(c) && !pre.opened_at(c) && pre.zero_cell(c));
        assert(!Seq::<IndexPair>::empty().contains(c));
        assert(neighbors_opened(cur, c));
        assert(near(c, d));
        assert(cur.mine_at(d) == pre.mine_at(d));
        assert(cur.opened_at(d));
    }
}

impl Field {
    /// Opens `s`; when `s` is an unopened zero cell the whole region it
    /// reaches through unopened zero cells opens with it, flags clearing as
    /// cells open. Opening an already opened cell changes nothing.
    pub fn open_at(&mut self, s: IndexPair)
        requires
            old(self).wf(),
            in_bounds(old(self).size, s),
        ensures
            final(self).wf(),
            open_rel(*old(self), *final(self), s),
    {
        if self.opened.get(s) {
            return;
        }
        let ghost pre = *self;
        self.opened.set(s, true);
        self.flags.set(s, false);
        proof {
            assert forall|d: IndexPair|
                in_bounds(self.size, d) implies !(self.opened_at(d) && self.flagged_at(d)) by {
                assert(!(pre.opened_at(d) && pre.flagged_at(d)));
            }
            assert(self.mines == pre.mines);
        }
        let mined = self.mines.get(s);
        if mined || self.mines.sum_neighbors(s) > 0 {
            proof {
                assert(!pre.expandable(s));
                lemma_no_opens_from_blocked(pre, s);
                assert forall|d: IndexPair|
                    in_bounds(pre.size, d) implies #[trigger] self.opened_at(d) == (
                pre.opened_at(d) || opens_cell(pre, s, d)) by {
                    if d != s {
                        if opens_to(pre, s, d) {
                            assert(d == s);
                        }
                        assert(self.opened_at(d) == pre.opened_at(d));
                    }
                }
                assert forall|d: IndexPair|
                    in_bounds(pre.size, d) implies #[trigger] self.flagged_at(d) == (
                pre.flagged_at(d) && !opens_cell(pre, s, d)) by {
                    if d != s {
                        if opens_to(pre, s, d) {
                            assert(d == s);
                        }
                        assert(self.flagged_at(d) == pre.flagged_at(d));
                    }
                }
            }
            return;
        }
        let mut stack: Vec<IndexPair> = Vec::new();
        stack.push(s);
        proof {
            lemma_count_true_bounds(self.opened.data@);
            assert(pre.zero_cell(s)) by {
                assert(pre.mines.neighbor_count(s) == self.mines.neighbor_count(s));
            }
            assert(stack@[0] == s);
            assert forall|d: IndexPair|
                in_bounds(pre.size, d) && #[trigger] self.opened_at(d) implies (pre.opened_at(d)
                || opens_cell(pre, s, d)) by {
                if d != s {
                    assert(self.opened_at(d) == pre.opened_at(d));
                }
            }
            assert(open_inv(pre, *self, s, stack@));
            assert forall|d: IndexPair|
                in_bounds(pre.size, d) && #[trigger] self.opened_at(d) && !pre.opened_at(d)
                    && pre.zero_cell(d) && !stack@.contains(d) implies neighbors_opened(
                *self,
                d,
            ) by {
                if d == s {
                    assert(stack@.contains(s)) by {
                        assert(stack@[0] == s);
                    }
                } else {
                    assert(self.opened_at(d) == pre.opened_at(d));
                }
            }
        }
        while stack.len() != 0
            invariant
                pre.wf(),
                in_bounds(pre.size, s),
                pre.expandable(s),
                open_inv(pre, *self, s, stack@),
                open_closure(pre, *self, stack@),
                count_true(self.opened.data@) <= self.opened.data@.len(),
            decreases unopened(*self) + stack@.len(),
        {
            let ghost m0 = unopened(*self) + stack@.len();
            let ghost st0 = stack@;
            let c = stack.pop().unwrap();
            proof {
                assert(st0[st0.len() - 1] == c);
                assert(in_bounds(pre.size, c) && pre.zero_cell(c) && !pre.opened_at(c)
                    && self.opened_at(c) && opens_cell(pre, s, c));
                assert forall|i: int|
                    0 <= i < stack@.len() implies {
                    &&& in_bounds(pre.size, #[trigger] stack@[i])
                    &&& pre.zero_cell(stack@[i])
                    &&& !pre.opened_at(stack@[i])
                    &&& self.opened_at(stack@[i])
                    &&& opens_cell(pre, s, stack@[i])
                } by {
                    assert(stack@[i] == st0[i]);
                }
                assert forall|d: IndexPair|
                    in_bounds(pre.size, d) && #[trigger] self.opened_at(d) && !pre.opened_at(d)
                        && pre.zero_cell(d) && !stack@.contains(d) && d != c implies
                neighbors_opened(*self, d) by {
                    assert(!st0.contains(d)) by {
                        if st0.contains(d) {
                            let k = choose|k: int| 0 <= k < st0.len() && st0[k] == d;
                            if k < st0.len() - 1 {
                                assert(stack@[k] == st0[k]);
                            } else {
                                assert(st0[k] == c);
                            }
                        }
                    }
                }
            }
            let av = self.opened.around(c);
            let mut j: usize = 0;
            proof {
                assert forall|e: IndexPair| #[trigger]
                    av@.contains(e) <==> (in_bounds(pre.size, e) && near(c, e)) by {
                    assert(in_bounds(self.opened.size, e) == in_bounds(pre.size, e));
                }
            }
            while j < av.len()
                invariant
                    pre.wf(),
                    in_bounds(pre.size, s),
                    pre.expandable(s),
                    open_inv(pre, *self, s, stack@),
                    count_true(self.opened.data@) <= self.opened.data@.len(),
                    in_bounds(pre.size, c),
                    pre.zero_cell(c),
                    !pre.opened_at(c),
                    opens_cell(pre, s, c),
                    j <= av.len(),
                    forall|e: IndexPair| #[trigger]
                        av@.contains(e) <==> (in_bounds(pre.size, e) && near(c, e)),
                    forall|d: IndexPair|
                        in_bounds(pre.size, d) && #[trigger] self.opened_at(d) && !pre.opened_at(
                            d,
                        ) && pre.zero_cell(d) && !stack@.contains(d) && d != c
                            ==> neighbors_opened(*self, d),
                    forall|k: int|
                        0 <= k < j ==> (!self.mines.cell(#[trigger] av@[k]) ==> self.opened_at(
                            av@[k],
                        )),
                    unopened(*self) + stack@.len() <= m0 - 1,
                decreases av.len() - j,
            {
                let d = av[j];
                proof {
                    assert(av@.contains(av@[j as int]));
                }
                if !self.opened.get(d) && !self.mines.get(d) {
                    let ghost prev = *self;
                    proof {
                        assert(!pre.opened_at(d));
                        assert(!pre.mine_at(d)) by {
                            assert(self.mines == pre.mines);
                        }
                        lemma_opens_step(pre, s, c, d);
                    }
                    self.opened.set(d, true);
                    self.flags.set(d, false);
                    proof {
                        prev.opened.lemma_pos(d, d);
                        lemma_count_true_update(prev.opened.data@, prev.opened.pos(d), true);
                        lemma_count_true_bounds(self.opened.data@);
                        assert forall|e: IndexPair|
                            in_bounds(self.size, e) implies !(self.opened_at(e)
                            && self.flagged_at(e)) by {
                            assert(!(prev.opened_at(e) && prev.flagged_at(e)));
                        }
                        assert forall|e: IndexPair|
                            in_bounds(pre.size, e) && #[trigger] self.opened_at(e) implies (
                        pre.opened_at(e) || opens_cell(pre, s, e)) by {
                            if e != d {
                                assert(prev.opened_at(e));
                            }
                        }
                        assert forall|e: IndexPair|
                            in_bounds(pre.size, e) implies #[trigger] self.flagged_at(e) == (
                        pre.flagged_at(e) && !(self.opened_at(e) && !pre.opened_at(e))) by {
                            if e != d {
                                assert(self.flagged_at(e) == prev.flagged_at(e));
                                assert(self.opened_at(e) == prev.opened_at(e));
                            }
                        }
                    }
                    let zero = self.mines.sum_neighbors(d) == 0;
                    proof {
                        assert(self.mines.neighbor_count(d) == pre.mines.neighbor_count(d));
                    }
                    let ghost stp = stack@;
                    if zero {
                        stack.push(d);
                    }
                    proof {
                        assert forall|i: int|
                            0 <= i < stack@.len() implies {
                            &&& in_bounds(pre.size, #[trigger] stack@[i])
                            &&& pre.zero_cell(stack@[i])
                            &&& !pre.opened_at(stack@[i])
                            &&& self.opened_at(stack@[i])
                            &&& opens_cell(pre, s, stack@[i])
                        } by {
                            if i < stp.len() {
                                assert(stack@[i] == stp[i]);
                                assert(prev.opened_at(stp[i]) ==> self.opened_at(stp[i]));
                            } else {
                                assert(stack@[i] == d);
                            }
                        }
                        assert forall|x: IndexPair|
                            in_bounds(pre.size, x) && #[trigger] self.opened_at(x)
                                && !pre.opened_at(x) && pre.zero_cell(x) && !stack@.contains(x)
                                && x != c implies neighbors_opened(*self, x) by {
                            assert(!stp.contains(x)) by {
                                if stp.contains(x) {
                                    let k = choose|k: int| 0 <= k < stp.len() && stp[k] == x;
                                    assert(stack@[k] == stp[k]);
                                }
                            }
                            if x == d {
                                assert(zero ==> stack@.contains(d)) by {
                                    if zero {
                                        assert(stack@[stack@.len() - 1] == d);
                                    }
                                }
                                assert(false);
                            } else {
                                assert(prev.opened_at(x));
                                assert(neighbors_opened(prev, x));
                                lemma_neighbors_opened_monotone(prev, *self, x);
                            }
                        }
                        assert(self.opened_at(d));
                        assert forall|k: int|
                            0 <= k < j implies (!self.mines.cell(#[trigger] av@[k])
                            ==> self.opened_at(av@[k])) by {
                            assert(av@.contains(av@[k]));
                            assert(prev.mines == self.mines);
                            assert(prev.opened_at(av@[k]) ==> self.opened_at(av@[k]));
                        }
                    }
                } else {
                    proof {
                        assert(self.opened_at(d) || self.mines.cell(d));
                    }
                }
                j += 1;
            }
            proof {
                assert(neighbors_opened(*self, c)) by {
                    assert forall|e: IndexPair|
                        in_bounds(self.size, e) && near(c, e) && !self.mine_at(e) implies
                    self.opened_at(e) by {
                        assert(av@.contains(e));
                        let k = choose|k: int| 0 <= k < av@.len() && av@[k] == e;
                        assert(!self.mines.cell(av@[k]) ==> self.opened_at(av@[k]));
                    }
                }
            }
        }
        proof {
            assert forall|d: IndexPair|
                in_bounds(pre.size, d) implies #[trigger] self.opened_at(d) == (pre.opened_at(d)
                || opens_cell(pre, s, d)) by {
                if pre.opened_at(d) {
                } else if d == s {
                } else if opens_to(pre, s, d) {
                    let p = choose|p: Seq<IndexPair>| opens_path(pre, s, d, p);
                    lemma_paths_opened(pre, *self, s, p, d);
                } else {
                    if self.opened_at(d) {
                        assert(opens_cell(pre, s, d));
                    }
                }
            }
            assert forall|d: IndexPair|
                in_bounds(pre.size, d) implies #[trigger] self.flagged_at(d) == (pre.flagged_at(
                d,
            ) && !opens_cell(pre, s, d)) by {
                assert(self.flagged_at(d) == (pre.flagged_at(d) && !(self.opened_at(d)
                    && !pre.opened_at(d))));
                if opens_cell(pre, s, d) {
                    assert(!pre.opened_at(d));
                    assert(self.opened_at(d));
                }
            }
        }
    }

    /// A primary click. Allocates the mines first if this is the first click
    /// of the game, so that the clicked cell and its neighborhood are
    /// mine-free. A flagged cell ignores the click; otherwise the cell opens
    /// (cascading if it is a zero cell) and the click explodes exactly when
    /// the cell holds a mine.
    pub fn handle_click(&mut self, index: IndexPair) -> (r: ClickResult)
        requires
            old(self).wf(),
            in_bounds(old(self).size, index),
            !old(self).are_mines_allocated ==> old(self).n_mines + block_len(
                old(self).size,
                index,
            ) <= old(self).total(),
        ensures
            final(self).wf(),
            click_rel(*old(self), *final(self), index, r),
    {
        if !self.are_mines_allocated {
            self.allocate_mines(index);
        }
        proof {
            assert(*self == (Field {
                mines: self.mines,
                are_mines_allocated: true,
                ..*old(self)
            }));
        }
        if !self.flags.get(index) {
            self.open_at(index);
            if !self.mines.get(index) {
                ClickResult::Safe
            } else {
                ClickResult::Exploded
            }
        } else {
            ClickResult::Safe
        }
    }

    /// How one cell should be rendered.
    pub fn item_at(&self, index: IndexPair) -> (r: FieldItem)
        requires
            self.wf(),
            in_bounds(self.size, index),
        ensures
            r.is_opened == self.opened_at(index),
            r.is_mined == self.mine_at(index),
            r.is_flagged == self.flagged_at(index),
            r.neighbors as int == self.neighbor_mines(index),
    {
        FieldItem {
            is_opened: self.opened.get(index),
            is_mined: self.mines.get(index),
            is_flagged: self.flags.get(index),
            neighbors: self.mines.sum_neighbors(index),
        }
    }

    /// Number of opened cells.
    pub fn count_opened(&self) -> (r: u16)
        requires
            self.wf(),
        ensures
            r as int == count_true(self.opened.data@),
    {
        self.opened.count()
    }

    /// Number of opened cells that are not mines: the win check's progress
    /// count, to which an exploded mine contributes nothing.
    pub fn count_safe_opened(&self) -> (r: u16)
        requires
            self.wf(),
        ensures
            r as int == count_and_not(self.opened.data@, self.mines.data@),
    {
        let n: usize = self.opened.data.len();
        let mut i: usize = 0;
        let mut cnt: u16 = 0;
        while i < n
            invariant
                self.wf(),
                n == self.opened.data.len(),
                n == self.mines.data.len(),
                i <= n,
                cnt as int == count_and_not(
                    self.opened.data@.take(i as int),
                    self.mines.data@.take(i as int),
                ),
                cnt as int <= i,
            decreases n - i,
        {
            proof {
                lemma_count_and_not_take_step(self.opened.data@, self.mines.data@, i as int);
                lemma_count_and_not_bounds(
                    self.opened.data@.take(i as int),
                    self.mines.data@.take(i as int),
                );
            }
            if self.opened.data[i] && !self.mines.data[i] {
                cnt = cnt + 1;
            }
            i += 1;
        }
        proof {
            lemma_count_and_not_take_all(self.opened.data@, self.mines.data@);
        }
        cnt
    }

    /// Number of flagged cells.
    pub fn count_flags(&self) -> (r: u16)
        requires
            self.wf(),
        ensures
            r as int == count_true(self.flags.data@),
    {
        self.flags.count()
    }

    /// How many flags are still unplaced: the configured mine count minus
    /// the flags standing, negative when the player over-flags.
    pub fn flags_remaining(&self) -> (r: i32)
        requires
            self.wf(),
        ensures
            r as int == self.n_mines - count_true(self.flags.data@),
    {
        proof {
            lemma_count_true_bounds(self.flags.data@);
        }
        (self.n_mines as i32) - (self.flags.count() as i32)
    }
}

/// With at most `cells - 9` mines the first click can land anywhere: the
/// exclusion zone around any click holds at most 9 cells, so the eligible
/// cells always suffice and `allocate_mines` (whose contract keeps the
/// clicked cell and its whole neighborhood mine-free) applies to every
/// starting cell.
pub proof fn lemma_safe_zone_always_fits(f: Field, s: IndexPair)
    requires
        in_bounds(f.size, s),
        f.n_mines + 9 <= f.total(),
    ensures
        f.n_mines + block_len(f.size, s) <= f.total(),
{
    lemma_block_characterization(f.size, s);
}

/// Opening a cell is idempotent: a second `open_at` on the same cell leaves
/// the field exactly as the first left it.
pub proof fn lemma_open_at_idempotent(f: Field, g: Field, h: Field, s: IndexPair)
    requires
        in_bounds(f.size, s),
        open_rel(f, g, s),
        open_rel(g, h, s),
    ensures
        h == g,
{
    if f.opened_at(s) {
        assert(g == f);
    } else {
        assert(g.opened_at(s) == (f.opened_at(s) || opens_cell(f, s, s)));
    }
    assert(g.opened_at(s));
}

/// A cell is never both opened and flagged: opening clears the flag, and a
/// flag can only stand on an unopened cell.
pub proof fn lemma_flag_open_exclusive(f: Field, d: IndexPair)
    requires
        f.wf(),
        in_bounds(f.size, d),
    ensures
        !(f.opened_at(d) && f.flagged_at(d)),
{
}

/// `p` is a chain of adjacent zero cells leading from `s` to `d`.
pub open spec fn zero_path(f: Field, s: IndexPair, d: IndexPair, p: Seq<IndexPair>) -> bool {
    &&& p.len() >= 1
    &&& p[0] == s
    &&& p.last() == d
    &&& forall|i: int| 0 <= i < p.len() ==> f.zero_cell(#[trigger] p[i])
    &&& forall|i: int| 0 <= i < p.len() - 1 ==> near(#[trigger] p[i], p[i + 1])
}

/// `d` lies in the maximal connected region of zero cells around `s`.
pub open spec fn zero_connected(f: Field, s: IndexPair, d: IndexPair) -> bool {
    exists|p: Seq<IndexPair>| zero_path(f, s, d, p)
}

/// A stop of a zero path is itself reached by a zero path: its prefix.
proof fn lemma_zero_path_prefix(f: Field, s: IndexPair, d: IndexPair, p: Seq<IndexPair>, i: int)
    requires
        zero_path(f, s, d, p),
        0 <= i < p.len(),
    ensures
        zero_connected(f, s, p[i]),
{
    let q = p.take(i + 1);
    assert(q.len() == i + 1 && q[0] == p[0] && q.last() == p[i]);
    assert forall|j: int| 0 <= j < q.len() implies f.zero_cell(#[trigger] q[j]) by {
        assert(q[j] == p[j]);
    }
    assert forall|j: int| 0 <= j < q.len() - 1 implies near(#[trigger] q[j], q[j + 1]) by {
        assert(q[j] == p[j] && q[j + 1] == p[j + 1]);
    }
    assert(zero_path(f, s, p[i], q));
}

/// Flood-fill correctness: opening a zero cell whose connected zero region
/// is still fully closed (an already-open zero cell would block the
/// cascade) opens that entire maximal region together with its bordering
/// non-mine (numbered) cells, newly opens no mine, and newly opens nothing
/// outside the region and its border.
pub proof fn lemma_flood_fill_region(f: Field, g: Field, s: IndexPair)
    requires
        open_rel(f, g, s),
        f.zero_cell(s),
        forall|d: IndexPair| #[trigger] zero_connected(f, s, d) ==> !f.opened_at(d),
    ensures
        forall|d: IndexPair| #[trigger] zero_connected(f, s, d) ==> g.opened_at(d),
        forall|d: IndexPair, e: IndexPair|
            #![trigger zero_connected(f, s, e), near(e, d)]
            zero_connected(f, s, e) && near(e, d) && in_bounds(f.size, d) && !f.mine_at(d)
                ==> g.opened_at(d),
        forall|d: IndexPair|
            in_bounds(f.size, d) && #[trigger] g.opened_at(d) && !f.opened_at(d) ==> !f.mine_at(
                d,
            ),
        forall|d: IndexPair|
            in_bounds(f.size, d) && #[trigger] g.opened_at(d) && !f.opened_at(d) ==> (
            zero_connected(f, s, d) || (exists|e: IndexPair|
                zero_connected(f, s, e) && near(e, d))),
{
    assert(zero_path(f, s, s, seq![s]));
    assert(zero_connected(f, s, s));
    assert(!f.opened_at(s));
    assert forall|e: IndexPair| #[trigger] zero_connected(f, s, e) implies opens_to(f, s, e)
        && f.expandable(e) by {
        let p = choose|p: Seq<IndexPair>| zero_path(f, s, e, p);
        assert(f.zero_cell(p[p.len() - 1]));
        assert(!f.opened_at(e));
        assert forall|i: int|
            0 <= i < p.len() - 1 implies f.expandable(#[trigger] p[i]) && near(p[i], p[i + 1]) by {
            assert(f.zero_cell(p[i]));
            lemma_zero_path_prefix(f, s, e, p, i);
            assert(zero_connected(f, s, p[i]));
            assert(!f.opened_at(p[i]));
        }
        assert(opens_path(f, s, e, p));
    }
    assert forall|d: IndexPair| #[trigger] zero_connected(f, s, d) implies g.opened_at(d) by {
        assert(opens_to(f, s, d));
        assert(g.opened_at(d) == (f.opened_at(d) || opens_cell(f, s, d)));
    }
    assert forall|d: IndexPair, e: IndexPair|
        #![trigger zero_connected(f, s, e), near(e, d)]
        zero_connected(f, s, e) && near(e, d) && in_bounds(f.size, d) && !f.mine_at(d) implies
    g.opened_at(d) by {
        assert(opens_to(f, s, e) && f.expandable(e));
        if !f.opened_at(d) {
            lemma_opens_step(f, s, e, d);
        }
        assert(g.opened_at(d) == (f.opened_at(d) || opens_cell(f, s, d)));
    }
    assert forall|d: IndexPair|
        in_bounds(f.size, d) && #[trigger] g.opened_at(d) && !f.opened_at(d) implies !f.mine_at(
        d,
    ) by {
        assert(g.opened_at(d) == (f.opened_at(d) || opens_cell(f, s, d)));
        if d != s && opens_to(f, s, d) {
            let p = choose|p: Seq<IndexPair>| opens_path(f, s, d, p);
        }
    }
    assert forall|d: IndexPair|
        in_bounds(f.size, d) && #[trigger] g.opened_at(d) && !f.opened_at(d) implies (
    zero_connected(f, s, d) || (exists|e: IndexPair|
        zero_connected(f, s, e) && near(e, d))) by {
        assert(g.opened_at(d) == (f.opened_at(d) || opens_cell(f, s, d)));
        if d == s {
            assert(zero_path(f, s, s, seq![s]));
            assert(zero_connected(f, s, d));
        } else {
            let p = choose|p: Seq<IndexPair>| opens_path(f, s, d, p);
            if p.len() == 1 {
                assert(d == s);
            } else {
                let q = p.drop_last();
                let e = p[p.len() - 2];
                assert(zero_path(f, s, e, q)) by {
                    assert(q.last() == e && q[0] == s && q.len() == p.len() - 1);
                    assert forall|i: int| 0 <= i < q.len() implies f.zero_cell(#[trigger] q[i]) by {
                        assert(q[i] == p[i]);
                        assert(f.expandable(p[i]));
                    }
                    assert forall|i: int|
                        0 <= i < q.len() - 1 implies near(#[trigger] q[i], q[i + 1]) by {
                        assert(q[i] == p[i] && q[i + 1] == p[i + 1]);
                    }
                }
                assert(zero_connected(f, s, e) && near(e, d));
            }
        }
    }
}

/// Render-ready state of one cell.
#[derive(Copy, Clone, PartialEq, Eq, Structural, Debug)]
pub struct FieldItem {
    pub is_opened: bool,
    pub is_mined: bool,
    pub is_flagged: bool,
    pub neighbors: u16,
}

} // verus!
