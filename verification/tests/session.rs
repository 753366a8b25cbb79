//! Tests of the game session: status, input interpretation, and coordinate
//! translation.

use minesweeper::field::Field;
use minesweeper::game::{
    classify_pointer, GameState, GameStatus, PointerAction, PointerButton, PointerInput,
    PointerKind,
};
use minesweeper::grid::IndexPair;

fn at(row: u16, col: u16) -> IndexPair {
    IndexPair { row, col }
}

/// A 3x3 session with one mine at (2,2), mines already allocated.
fn session_3x3_corner_mine() -> GameState {
    let mut g = GameState::new(at(3, 3), 1).unwrap();
    g.field.mines.set(at(2, 2), true);
    g.field.are_mines_allocated = true;
    g
}

/// A left press without modifiers on the raw position of grid cell
/// (row, col), drawn from origin (1,1) with 2-wide columns.
fn left_click_on(row: u16, col: u16) -> PointerInput {
    PointerInput {
        kind: PointerKind::Down,
        button: PointerButton::Left,
        shift: false,
        other_modifiers: false,
        position: at(1 + row, 1 + 2 * col),
    }
}

fn right_click_on(row: u16, col: u16) -> PointerInput {
    PointerInput {
        kind: PointerKind::Down,
        button: PointerButton::Right,
        shift: false,
        other_modifiers: false,
        position: at(1 + row, 1 + 2 * col),
    }
}

#[test]
fn decision_table() {
    let mut input = left_click_on(0, 0);
    assert_eq!(classify_pointer(input), PointerAction::Reveal);
    input.shift = true;
    assert_eq!(classify_pointer(input), PointerAction::ToggleFlag);
    input.button = PointerButton::Right;
    assert_eq!(classify_pointer(input), PointerAction::NoAction);
    input.shift = false;
    assert_eq!(classify_pointer(input), PointerAction::ToggleFlag);
    input.other_modifiers = true;
    assert_eq!(classify_pointer(input), PointerAction::NoAction);
    let up = PointerInput { kind: PointerKind::Up, ..left_click_on(0, 0) };
    assert_eq!(classify_pointer(up), PointerAction::NoAction);
    let drag = PointerInput { kind: PointerKind::Drag, ..left_click_on(0, 0) };
    assert_eq!(classify_pointer(drag), PointerAction::NoAction);
}

#[test]
fn coordinate_translation() {
    let g = GameState::new(at(10, 10), 10).unwrap();
    // Origin (1,1), 2-wide columns.
    assert_eq!(g.convert_absolute_to_relative(at(1, 1)), Some(at(0, 0)));
    assert_eq!(g.convert_absolute_to_relative(at(0, 0)), None);
    assert_eq!(g.convert_absolute_to_relative(at(1, 3)), Some(at(0, 1)));
    assert_eq!(g.convert_absolute_to_relative(at(1, 2)), Some(at(0, 0)));
    assert_eq!(g.convert_absolute_to_relative(at(10, 20)), Some(at(9, 9)));
    assert_eq!(g.convert_absolute_to_relative(at(11, 1)), None);
    assert_eq!(g.convert_absolute_to_relative(at(1, 21)), None);
    assert_eq!(g.convert_absolute_to_relative(at(0, 5)), None);
}

#[test]
fn session_config_rejected() {
    assert!(GameState::new(at(3, 3), 6).is_err());
    assert!(GameState::new(at(10, 10), 10).is_ok());
}

#[test]
fn win_on_opening_all_safe_cells() {
    // 3x3, one mine at (2,2): the click on (0,0) cascades through the five
    // zero cells and their three numbered border cells — all 8 non-mine
    // cells — and the session reports the win.
    let mut g = session_3x3_corner_mine();
    assert_eq!(g.status, GameStatus::InProgress);
    g.handle_pointer(left_click_on(0, 0));
    assert_eq!(g.status, GameStatus::Win);
}

#[test]
fn win_by_single_cells() {
    // Opening the three numbered cells one by one, then the zero region,
    // wins only with the last safe cell.
    let mut g = session_3x3_corner_mine();
    g.handle_pointer(left_click_on(1, 1));
    assert_eq!(g.status, GameStatus::InProgress);
    g.handle_pointer(left_click_on(1, 2));
    assert_eq!(g.status, GameStatus::InProgress);
    g.handle_pointer(left_click_on(2, 1));
    assert_eq!(g.status, GameStatus::InProgress);
    g.handle_pointer(left_click_on(0, 0));
    assert_eq!(g.status, GameStatus::Win);
}

#[test]
fn loss_on_opening_the_mine() {
    let mut g = session_3x3_corner_mine();
    g.handle_pointer(left_click_on(1, 1));
    assert_eq!(g.status, GameStatus::InProgress);
    g.handle_pointer(left_click_on(2, 2));
    assert_eq!(g.status, GameStatus::Loss);
}

#[test]
fn explosion_never_counts_toward_win() {
    // 3x3 with five mines; the four safe cells are all numbered. With three
    // of them open, clicking the mine brings the count of opened cells to
    // total minus mines — but the opened mine scores nothing, so the click
    // loses rather than wins.
    let mut g = GameState::new(at(3, 3), 5).unwrap();
    for m in [at(1, 1), at(0, 2), at(1, 2), at(2, 0), at(2, 2)] {
        g.field.mines.set(m, true);
    }
    g.field.are_mines_allocated = true;
    g.handle_pointer(left_click_on(0, 0));
    g.handle_pointer(left_click_on(0, 1));
    g.handle_pointer(left_click_on(1, 0));
    assert_eq!(g.status, GameStatus::InProgress);
    g.handle_pointer(left_click_on(1, 1));
    assert_eq!(g.status, GameStatus::Loss);
    assert!(!g.field.item_at(at(2, 1)).is_opened);
}

#[test]
fn finished_game_ignores_input() {
    let mut g = session_3x3_corner_mine();
    g.handle_pointer(left_click_on(2, 2));
    assert_eq!(g.status, GameStatus::Loss);
    g.handle_pointer(left_click_on(0, 0));
    assert_eq!(g.status, GameStatus::Loss);
    assert!(!g.field.item_at(at(0, 0)).is_opened);
    g.handle_pointer(right_click_on(0, 1));
    assert!(!g.field.item_at(at(0, 1)).is_flagged);
}

#[test]
fn flag_through_session() {
    let mut g = session_3x3_corner_mine();
    g.handle_pointer(right_click_on(2, 2));
    assert!(g.field.item_at(at(2, 2)).is_flagged);
    assert_eq!(g.status, GameStatus::InProgress);
    // A reveal on the flagged mine is blocked and harmless.
    g.handle_pointer(left_click_on(2, 2));
    assert_eq!(g.status, GameStatus::InProgress);
    assert!(!g.field.item_at(at(2, 2)).is_opened);
    // Shift + left also flags.
    let mut shifted = left_click_on(0, 0);
    shifted.shift = true;
    g.handle_pointer(shifted);
    assert!(g.field.item_at(at(0, 0)).is_flagged);
}

#[test]
fn clicks_outside_grid_ignored() {
    let mut g = session_3x3_corner_mine();
    g.handle_pointer(PointerInput { position: at(0, 0), ..left_click_on(0, 0) });
    g.handle_pointer(PointerInput { position: at(4, 1), ..left_click_on(0, 0) });
    g.handle_pointer(PointerInput { position: at(1, 7), ..left_click_on(0, 0) });
    assert_eq!(g.status, GameStatus::InProgress);
    for r in 0..3u16 {
        for c in 0..3u16 {
            assert!(!g.field.item_at(at(r, c)).is_opened);
        }
    }
}

#[test]
fn zero_mines_wins_on_first_click() {
    let mut g = GameState::new(at(3, 3), 0).unwrap();
    g.handle_pointer(left_click_on(1, 1));
    assert_eq!(g.status, GameStatus::Win);
    for r in 0..3u16 {
        for c in 0..3u16 {
            assert!(g.field.item_at(at(r, c)).is_opened);
        }
    }
}

#[test]
fn one_cell_grid() {
    let mut g = GameState::new(at(1, 1), 0).unwrap();
    assert!(GameState::new(at(1, 1), 1).is_err());
    g.handle_pointer(left_click_on(0, 0));
    assert_eq!(g.status, GameStatus::Win);
    assert!(g.field.item_at(at(0, 0)).is_opened);
}

#[test]
fn session_first_click_allocates() {
    let mut g = GameState::new(at(10, 10), 10).unwrap();
    assert!(!g.field.are_mines_allocated);
    g.handle_pointer(left_click_on(4, 4));
    assert!(g.field.are_mines_allocated);
    assert!(g.field.item_at(at(4, 4)).is_opened);
    assert!(!g.field.item_at(at(4, 4)).is_mined);
    assert_eq!(g.status, GameStatus::InProgress);
    let standalone_field: &Field = &g.field;
    let mut mines = 0u16;
    for r in 0..10u16 {
        for c in 0..10u16 {
            if standalone_field.item_at(at(r, c)).is_mined {
                mines += 1;
            }
        }
    }
    assert_eq!(mines, 10);
}
