//! The game session: status tracking, pointer-input interpretation, and the
//! translation of raw screen positions to grid coordinates.

use crate::field::{
    opens_cell, opens_to, open_rel,
    click_rel, force_click_rel, min_block, ClickResult, ConfigError, Field,
};
use crate::grid::{block_len, count_and_not, count_true, in_bounds, IndexPair};
use vstd::prelude::*;

verus! {

/// Game status; once `Win` or `Loss`, input no longer changes the session.
#[derive(Copy, Clone, PartialEq, Eq, Structural, Debug)]
pub enum GameStatus {
    InProgress,
    Win,
    Loss,
}

#[derive(Copy, Clone, PartialEq, Eq, Structural, Debug)]
pub enum PointerButton {
    Left,
    Right,
    Other,
}

/// The kind of a pointer event; only `Down` acts on the field.
#[derive(Copy, Clone, PartialEq, Eq, Structural, Debug)]
pub enum PointerKind {
    Down,
    Up,
    Drag,
    Moved,
    Scroll,
}

/// One pointer event, as plain values.
#[derive(Copy, Clone, PartialEq, Eq, Structural, Debug)]
pub struct PointerInput {
    pub kind: PointerKind,
    pub button: PointerButton,
    pub shift: bool,
    pub other_modifiers: bool,
    pub position: IndexPair,
}

/// What a pointer event asks of the field.
#[derive(Copy, Clone, PartialEq, Eq, Structural, Debug)]
pub enum PointerAction {
    Reveal,
    ToggleFlag,
    NoAction,
}

/// The decision table for pointer input: a left press without modifiers
/// reveals; a left press with shift alone, or a right press without
/// modifiers, toggles a flag; everything else is ignored.
pub open spec fn action_of(input: PointerInput) -> PointerAction {
    if input.kind != PointerKind::Down || input.other_modifiers {
        PointerAction::NoAction
    } else if input.button == PointerButton::Left && !input.shift {
        PointerAction::Reveal
    } else if input.button == PointerButton::Left && input.shift {
        PointerAction::ToggleFlag
    } else if input.button == PointerButton::Right && !input.shift {
        PointerAction::ToggleFlag
    } else {
        PointerAction::NoAction
    }
}

/// Computes the decision table.
pub fn classify_pointer(input: PointerInput) -> (r: PointerAction)
    ensures
        r == action_of(input),
{
    match input.kind {
        PointerKind::Down => {
            if input.other_modifiers {
                PointerAction::NoAction
            } else {
                match input.button {
                    PointerButton::Left => if input.shift {
                        PointerAction::ToggleFlag
                    } else {
                        PointerAction::Reveal
                    },
                    PointerButton::Right => if input.shift {
                        PointerAction::NoAction
                    } else {
                        PointerAction::ToggleFlag
                    },
                    PointerButton::Other => PointerAction::NoAction,
                }
            }
        },
        _ => PointerAction::NoAction,
    }
}

/// Translates a raw screen position to a grid coordinate: the field is
/// drawn from `start` with cells two characters wide, so the raw column
/// offset is halved. Positions above or left of the origin, or past the
/// grid, name no cell.
pub open spec fn convert_spec(start: IndexPair, size: IndexPair, raw: IndexPair) -> Option<
    IndexPair,
> {
    if start.row <= raw.row && start.col <= raw.col {
        let row = (raw.row - start.row) as u16;
        let col = ((raw.col - start.col) / 2) as u16;
        if row < size.row && col < size.col {
            Some(IndexPair { row, col })
        } else {
            None
        }
    } else {
        None
    }
}

/// The win condition the session checks after each click: the opened
/// non-mine cells are all of the board's non-mine cells. An opened mine
/// contributes nothing, so a click that explodes can never complete the
/// count.
pub open spec fn win_cond(f: Field) -> bool {
    f.n_mines == f.total() - count_and_not(f.opened.data@, f.mines.data@)
}

/// Win detection is exact: on a well-formed field with its mines allocated,
/// the session's count equation holds precisely when every non-mine cell
/// has been opened — whether or not a mine stands open.
pub proof fn lemma_win_cond_exact(f: Field)
    requires
        f.wf(),
        f.are_mines_allocated,
    ensures
        win_cond(f) <==> (forall|d: IndexPair|
            in_bounds(f.size, d) ==> (f.opened_at(d) || f.mine_at(d))),
{
    let a = f.opened.data@;
    let b = f.mines.data@;
    crate::grid::lemma_count_and_not_full(a, b);
    if win_cond(f) {
        assert(count_and_not(a, b) + count_true(b) == a.len());
        assert forall|d: IndexPair|
            in_bounds(f.size, d) implies (f.opened_at(d) || f.mine_at(d)) by {
            f.opened.lemma_pos(d, d);
            assert(a[f.opened.pos(d)] || b[f.opened.pos(d)]);
        }
    }
    if forall|d: IndexPair| in_bounds(f.size, d) ==> (f.opened_at(d) || f.mine_at(d)) {
        assert forall|j: int| #![trigger a[j]] 0 <= j < a.len() implies (a[j] || b[j]) by {
            crate::grid::lemma_index_to_cell(f.opened, j);
            let d = choose|d: IndexPair| in_bounds(f.opened.size, d) && f.opened.pos(d) == j;
            assert(f.opened_at(d) || f.mine_at(d));
        }
        assert(count_and_not(a, b) + count_true(b) == a.len());
        assert(win_cond(f));
    }
}

/// A click that explodes while any non-mine cell is still closed sets the
/// status to Loss: opening a mine cascades nowhere, so the still-closed
/// cell stays closed, the win count stays short, and the win check cannot
/// overwrite the loss.
pub proof fn lemma_explosion_loses(pre: Field, post: Field, index: IndexPair)
    requires
        post.wf(),
        in_bounds(pre.size, index),
        click_rel(pre, post, index, ClickResult::Exploded),
        exists|d: IndexPair|
            in_bounds(pre.size, d) && !post.mine_at(d) && !#[trigger] pre.opened_at(d),
    ensures
        status_after(post, true) == GameStatus::Loss,
{
    let mid = Field { mines: post.mines, are_mines_allocated: true, ..pre };
    assert(open_rel(mid, post, index));
    let d = choose|d: IndexPair|
        in_bounds(pre.size, d) && !post.mine_at(d) && !#[trigger] pre.opened_at(d);
    assert(mid.mine_at(index) && d != index);
    if !mid.opened_at(index) {
        crate::field::lemma_no_opens_from_blocked(mid, index);
        if opens_to(mid, index, d) {
            assert(d == index);
        }
        assert(post.opened_at(d) == (mid.opened_at(d) || opens_cell(mid, index, d)));
    }
    assert(!post.opened_at(d));
    lemma_win_cond_exact(post);
    assert(!win_cond(post));
}

/// What the session's status becomes after a click with result `exploded`:
/// a board with every non-mine cell open wins, otherwise an explosion
/// loses. An exploded mine counts nothing toward the win, so a click from a
/// running game cannot both explode and complete the board, and the win
/// check standing first cannot overwrite a loss.
pub open spec fn status_after(post: Field, exploded: bool) -> GameStatus {
    if win_cond(post) {
        GameStatus::Win
    } else if exploded {
        GameStatus::Loss
    } else {
        GameStatus::InProgress
    }
}

/// One game: the minefield, the screen origin of the drawn field, and the
/// session status.
pub struct GameState {
    pub field: Field,
    pub start: IndexPair,
    pub status: GameStatus,
}

impl GameState {
    pub open spec fn wf(self) -> bool {
        self.field.wf()
    }

    /// Starts a session over a fresh field drawn at screen origin (1, 1),
    /// rejecting configurations whose mine count no first click could
    /// allocate.
    pub fn new(size: IndexPair, n_mines: u16) -> (r: Result<GameState, ConfigError>)
        requires
            size.row * size.col <= u16::MAX,
        ensures
            r is Ok <==> n_mines + min_block(size) <= size.row * size.col,
            r matches Ok(g) ==> {
                &&& g.wf()
                &&& g.field.size == size
                &&& g.field.n_mines == n_mines
                &&& !g.field.are_mines_allocated
                &&& g.status == GameStatus::InProgress
                &&& g.start == (IndexPair { row: 1, col: 1 })
                &&& forall|d: IndexPair|
                    in_bounds(size, d) ==> !g.field.mine_at(d) && !g.field.opened_at(d)
                        && !g.field.flagged_at(d)
            },
    {
        match Field::new(size, n_mines) {
            Ok(field) => Ok(
                GameState {
                    field,
                    start: IndexPair { row: 1, col: 1 },
                    status: GameStatus::InProgress,
                },
            ),
            Err(e) => Err(e),
        }
    }

    /// Translates a raw screen position into a grid coordinate, or `None`
    /// when the position lies outside the drawn field.
    pub fn convert_absolute_to_relative(&self, old_coords: IndexPair) -> (r: Option<IndexPair>)
        ensures
            r == convert_spec(self.start, self.field.size, old_coords),
            r matches Some(i) ==> in_bounds(self.field.size, i),
    {
        if self.start.row <= old_coords.row && self.start.col <= old_coords.col {
            let new_coords = IndexPair {
                row: old_coords.row - self.start.row,
                col: (old_coords.col - self.start.col) / 2,
            };
            if new_coords.row < self.field.size.row && new_coords.col < self.field.size.col {
                return Some(new_coords);
            }
        }
        None
    }

    /// The win condition holds: every cell but the mines is open.
    pub fn check_for_win(&self) -> (r: bool)
        requires
            self.wf(),
        ensures
            r == win_cond(self.field),
    {
        let n_safe_opened = self.field.count_safe_opened();
        let n_total = self.field.size.row * self.field.size.col;
        proof {
            crate::grid::lemma_count_and_not_bounds(
                self.field.opened.data@,
                self.field.mines.data@,
            );
        }
        self.field.n_mines == n_total - n_safe_opened
    }

    fn lose_game(&mut self)
        ensures
            *final(self) == (GameState { status: GameStatus::Loss, ..*old(self) }),
    {
        self.status = GameStatus::Loss;
    }

    fn win_game(&mut self)
        ensures
            *final(self) == (GameState { status: GameStatus::Win, ..*old(self) }),
    {
        self.status = GameStatus::Win;
    }

    /// Feeds one pointer event to the session. A finished game ignores all
    /// input; otherwise the event's target cell and the decision table pick
    /// a reveal or a flag toggle, and the status is updated from the click's
    /// outcome.
    pub fn handle_pointer(&mut self, input: PointerInput)
        requires
            old(self).wf(),
            ({
                let t = convert_spec(old(self).start, old(self).field.size, input.position);
                (old(self).status == GameStatus::InProgress && action_of(input)
                    == PointerAction::Reveal && !old(self).field.are_mines_allocated) ==> (t
                    matches Some(idx) ==> old(self).field.n_mines + block_len(
                    old(self).field.size,
                    idx,
                ) <= old(self).field.total())
            }),
        ensures
            final(self).wf(),
            final(self).start == old(self).start,
            final(self).field.size == old(self).field.size,
            final(self).field.n_mines == old(self).field.n_mines,
            old(self).status != GameStatus::InProgress ==> *final(self) == *old(self),
            ({
                let t = convert_spec(old(self).start, old(self).field.size, input.position);
                (old(self).status == GameStatus::InProgress && (t is None || action_of(input)
                    == PointerAction::NoAction)) ==> *final(self) == *old(self)
            }),
            ({
                let t = convert_spec(old(self).start, old(self).field.size, input.position);
                (old(self).status == GameStatus::InProgress && action_of(input)
                    == PointerAction::Reveal) ==> (t matches Some(idx) ==> {
                    let exploded = !old(self).field.flagged_at(idx)
                        && final(self).field.mine_at(idx);
                    &&& click_rel(
                        old(self).field,
                        final(self).field,
                        idx,
                        if exploded {
                            ClickResult::Exploded
                        } else {
                            ClickResult::Safe
                        },
                    )
                    &&& final(self).status == status_after(final(self).field, exploded)
                })
            }),
            ({
                let t = convert_spec(old(self).start, old(self).field.size, input.position);
                (old(self).status == GameStatus::InProgress && action_of(input)
                    == PointerAction::ToggleFlag) ==> (t matches Some(idx) ==> {
                    &&& force_click_rel(old(self).field, final(self).field, idx)
                    &&& final(self).status == status_after(final(self).field, false)
                })
            }),
    {
        if self.status != GameStatus::InProgress {
            return;
        }
        let index = match self.convert_absolute_to_relative(input.position) {
            Some(i) => i,
            None => {
                return;
            },
        };
        let action = classify_pointer(input);
        let click_result = match action {
            PointerAction::Reveal => self.field.handle_click(index),
            PointerAction::ToggleFlag => self.field.handle_force_click(index),
            PointerAction::NoAction => {
                return;
            },
        };
        if click_result == ClickResult::Exploded {
            self.lose_game();
        }
        if self.check_for_win() {
            self.win_game();
        }
    }
}

} // verus!
