//! Tests of the grid and the minefield engine.

use minesweeper::field::{ClickResult, Field, FieldItem};
use minesweeper::grid::{Grid, IndexPair};

fn at(row: u16, col: u16) -> IndexPair {
    IndexPair { row, col }
}

/// A 3x3 field with one mine in the bottom-right corner, mines already
/// allocated, nothing opened or flagged.
fn field_3x3_corner_mine() -> Field {
    let mut f = Field::new(at(3, 3), 1).unwrap();
    f.mines.set(at(2, 2), true);
    f.are_mines_allocated = true;
    f
}

fn snapshot(f: &Field) -> Vec<FieldItem> {
    let mut items = Vec::new();
    for r in 0..f.size.row {
        for c in 0..f.size.col {
            items.push(f.item_at(at(r, c)));
        }
    }
    items
}

#[test]
fn grid_starts_empty_and_counts() {
    let mut g = Grid::new(at(4, 5));
    assert_eq!(g.count(), 0);
    assert!(!g.get(at(3, 4)));
    g.set(at(1, 2), true);
    g.set(at(3, 4), true);
    assert_eq!(g.count(), 2);
    assert!(g.get(at(1, 2)));
    assert!(!g.get(at(1, 3)));
    g.set(at(1, 2), false);
    assert_eq!(g.count(), 1);
}

#[test]
fn grid_largest_size() {
    // 255 * 257 == 65535, the largest cell count a grid accepts.
    let mut g = Grid::new(at(255, 257));
    assert_eq!(g.count(), 0);
    g.set(at(254, 256), true);
    assert_eq!(g.count(), 1);
    assert!(g.get(at(254, 256)));
}

#[test]
fn around_clips_at_edges() {
    let g = Grid::new(at(4, 4));
    let corner = g.around(at(0, 0));
    assert_eq!(corner.len(), 4);
    assert!(corner.contains(&at(0, 0)));
    assert!(corner.contains(&at(1, 1)));
    let edge = g.around(at(0, 2));
    assert_eq!(edge.len(), 6);
    let interior = g.around(at(2, 2));
    assert_eq!(interior.len(), 9);
    assert!(!interior.contains(&at(0, 0)));
}

#[test]
fn around_row_major_order() {
    let g = Grid::new(at(4, 4));
    let interior = g.around(at(2, 2));
    let expected = vec![
        at(1, 1),
        at(1, 2),
        at(1, 3),
        at(2, 1),
        at(2, 2),
        at(2, 3),
        at(3, 1),
        at(3, 2),
        at(3, 3),
    ];
    assert_eq!(interior, expected);
    let corner = g.around(at(0, 0));
    assert_eq!(corner, vec![at(0, 0), at(0, 1), at(1, 0), at(1, 1)]);
    let edge = g.around(at(3, 2));
    assert_eq!(edge, vec![at(2, 1), at(2, 2), at(2, 3), at(3, 1), at(3, 2), at(3, 3)]);
}

#[test]
fn sum_neighbors_examines_3_5_8_cells() {
    // Every cell holds true, so the count equals the number of examined
    // neighbor cells: 3 at a corner, 5 on an edge, 8 in the interior —
    // and never counts the center itself.
    let mut g = Grid::new(at(4, 4));
    for r in 0..4u16 {
        for c in 0..4u16 {
            g.set(at(r, c), true);
        }
    }
    assert_eq!(g.sum_neighbors(at(0, 0)), 3);
    assert_eq!(g.sum_neighbors(at(0, 3)), 3);
    assert_eq!(g.sum_neighbors(at(3, 0)), 3);
    assert_eq!(g.sum_neighbors(at(3, 3)), 3);
    assert_eq!(g.sum_neighbors(at(0, 1)), 5);
    assert_eq!(g.sum_neighbors(at(2, 0)), 5);
    assert_eq!(g.sum_neighbors(at(3, 2)), 5);
    assert_eq!(g.sum_neighbors(at(1, 3)), 5);
    assert_eq!(g.sum_neighbors(at(1, 1)), 8);
    assert_eq!(g.sum_neighbors(at(2, 2)), 8);
}

#[test]
fn config_rejected_when_mines_exceed_eligible_cells() {
    // 3x3: the most favorable (corner) click excludes 4 cells, leaving 5.
    assert!(Field::new(at(3, 3), 6).is_err());
    assert!(Field::new(at(3, 3), 5).is_ok());
    assert!(Field::new(at(3, 3), 1).is_ok());
    // 10x10: the standard configuration is accepted.
    assert!(Field::new(at(10, 10), 10).is_ok());
    // A grid too small for any mine.
    assert!(Field::new(at(2, 2), 1).is_err());
    assert!(Field::new(at(2, 2), 0).is_ok());
}

#[test]
fn new_field_fully_closed() {
    let f = Field::new(at(4, 4), 3).unwrap();
    assert!(!f.are_mines_allocated);
    for r in 0..4u16 {
        for c in 0..4u16 {
            let item = f.item_at(at(r, c));
            assert!(!item.is_opened);
            assert!(!item.is_mined);
            assert!(!item.is_flagged);
            assert_eq!(item.neighbors, 0);
        }
    }
}

#[test]
fn first_click_allocates_outside_safe_zone() {
    // The first click allocates all 10 mines and keeps the clicked cell and
    // its whole 3x3 neighborhood mine-free, whatever the shuffle produced.
    let mut f = Field::new(at(10, 10), 10).unwrap();
    let r = f.handle_click(at(5, 5));
    assert_eq!(r, ClickResult::Safe);
    assert!(f.are_mines_allocated);
    let mut mines = 0u16;
    for row in 0..10u16 {
        for col in 0..10u16 {
            if f.item_at(at(row, col)).is_mined {
                mines += 1;
                let dr = (row as i32 - 5).abs();
                let dc = (col as i32 - 5).abs();
                assert!(dr > 1 || dc > 1, "mine inside the safe zone");
            }
        }
    }
    assert_eq!(mines, 10);
    assert!(f.item_at(at(5, 5)).is_opened);
}

#[test]
fn corner_first_click_allocates() {
    // The exclusion zone of a corner click on 3x3 has 4 cells; 5 mines
    // still fit.
    let mut f = Field::new(at(3, 3), 5).unwrap();
    assert_eq!(f.handle_click(at(0, 0)), ClickResult::Safe);
    let mut mines = 0u16;
    for row in 0..3u16 {
        for col in 0..3u16 {
            if f.item_at(at(row, col)).is_mined {
                mines += 1;
                assert!(row > 1 || col > 1);
            }
        }
    }
    assert_eq!(mines, 5);
}

#[test]
fn open_at_is_idempotent() {
    let mut f = field_3x3_corner_mine();
    f.open_at(at(0, 0));
    let once = snapshot(&f);
    f.open_at(at(0, 0));
    let twice = snapshot(&f);
    assert_eq!(once, twice);
}

#[test]
fn flood_fill_opens_region_and_border_only() {
    // Mine at (2,2): the zero region reachable from (0,0) is the five cells
    // away from the mine; the three numbered cells border it; the mine
    // stays closed.
    let mut f = field_3x3_corner_mine();
    f.open_at(at(0, 0));
    for r in 0..3u16 {
        for c in 0..3u16 {
            let item = f.item_at(at(r, c));
            if r == 2 && c == 2 {
                assert!(!item.is_opened, "the mine must stay closed");
            } else {
                assert!(item.is_opened, "non-mine cell left closed");
            }
        }
    }
    assert_eq!(f.item_at(at(1, 1)).neighbors, 1);
    assert_eq!(f.item_at(at(1, 2)).neighbors, 1);
    assert_eq!(f.item_at(at(2, 1)).neighbors, 1);
    assert_eq!(f.item_at(at(0, 0)).neighbors, 0);
}

#[test]
fn opening_numbered_cell_opens_it_alone() {
    let mut f = field_3x3_corner_mine();
    f.open_at(at(1, 1));
    let mut opened = 0u16;
    for r in 0..3u16 {
        for c in 0..3u16 {
            if f.item_at(at(r, c)).is_opened {
                opened += 1;
            }
        }
    }
    assert_eq!(opened, 1);
    assert!(f.item_at(at(1, 1)).is_opened);
}

#[test]
fn flood_fill_clears_flags_it_opens() {
    let mut f = field_3x3_corner_mine();
    f.handle_force_click(at(0, 1));
    assert!(f.item_at(at(0, 1)).is_flagged);
    f.open_at(at(0, 0));
    assert!(f.item_at(at(0, 1)).is_opened);
    assert!(!f.item_at(at(0, 1)).is_flagged);
}

#[test]
fn flag_blocks_reveal() {
    let mut f = field_3x3_corner_mine();
    f.handle_force_click(at(2, 2));
    assert!(f.item_at(at(2, 2)).is_flagged);
    // A plain reveal on a flagged cell is a no-op, even on a mine.
    let r = f.handle_click(at(2, 2));
    assert_eq!(r, ClickResult::Safe);
    assert!(!f.item_at(at(2, 2)).is_opened);
    assert!(f.item_at(at(2, 2)).is_flagged);
}

#[test]
fn opened_cell_cannot_be_flagged() {
    let mut f = field_3x3_corner_mine();
    f.open_at(at(1, 1));
    f.handle_force_click(at(1, 1));
    assert!(f.item_at(at(1, 1)).is_opened);
    assert!(!f.item_at(at(1, 1)).is_flagged);
}

#[test]
fn force_click_toggles() {
    let mut f = field_3x3_corner_mine();
    assert_eq!(f.handle_force_click(at(0, 2)), ClickResult::Safe);
    assert!(f.item_at(at(0, 2)).is_flagged);
    f.handle_force_click(at(0, 2));
    assert!(!f.item_at(at(0, 2)).is_flagged);
}

#[test]
fn clicking_mine_explodes() {
    let mut f = field_3x3_corner_mine();
    let r = f.handle_click(at(2, 2));
    assert_eq!(r, ClickResult::Exploded);
    assert!(f.item_at(at(2, 2)).is_opened);
}

#[test]
fn flags_remaining_counts() {
    let mut f = field_3x3_corner_mine();
    assert_eq!(f.flags_remaining(), 1);
    f.handle_force_click(at(0, 0));
    assert_eq!(f.flags_remaining(), 0);
    f.handle_force_click(at(0, 1));
    assert_eq!(f.flags_remaining(), -1);
    assert_eq!(f.count_flags(), 2);
    assert_eq!(f.count_opened(), 0);
}
