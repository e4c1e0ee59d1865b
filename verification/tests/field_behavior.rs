//! Behavioural tests of the Field engine, driving mine placement through
//! `place_mine` / `finish_generation` so that layouts are deterministic.

use minesweeper::Field;
use minesweeper::FieldError;

/// A 3x3 field with one mine forced at (2, 2), generation complete.
fn three_by_three_corner_mine() -> Field {
    let mut f = Field::new(3, 3, 1).unwrap();
    assert!(f.place_mine(2, 2));
    f.finish_generation();
    f
}

#[test]
fn rejects_degenerate_configurations() {
    assert!(matches!(Field::new(0, 5, 1), Err(FieldError::InvalidConfiguration)));
    assert!(matches!(Field::new(5, 0, 1), Err(FieldError::InvalidConfiguration)));
    assert!(matches!(Field::new(-3, 4, 1), Err(FieldError::InvalidConfiguration)));
    assert!(matches!(Field::new(3, 3, -1), Err(FieldError::InvalidConfiguration)));
    // the mine target must leave at least one free cell
    assert!(matches!(Field::new(3, 3, 9), Err(FieldError::InvalidConfiguration)));
    assert!(matches!(Field::new(3, 3, 10), Err(FieldError::InvalidConfiguration)));
    // a grid whose cell count overflows the counters is rejected too
    assert!(matches!(Field::new(99999, 99999, 5), Err(FieldError::InvalidConfiguration)));
    assert!(Field::new(3, 3, 8).is_ok());
    assert!(Field::new(1, 1, 0).is_ok());
}

#[test]
fn fresh_field_is_closed_and_clean() {
    let f = Field::new(4, 3, 2).unwrap();
    assert_eq!(f.width(), 4);
    assert_eq!(f.height(), 3);
    assert_eq!(f.bombs(), 2);
    assert_eq!(f.opened(), 0);
    assert_eq!(f.flags(), 0);
    for x in 0..4 {
        for y in 0..3 {
            let c = f.cell(x, y);
            assert!(!c.bomb && !c.opened && !c.flag);
            assert_eq!(c.bombs, 0);
        }
    }
}

#[test]
fn one_by_one_open_wins_immediately() {
    let mut f = Field::new(1, 1, 0).unwrap();
    let hit = f.open(0, 0);
    assert!(!hit);
    assert_eq!(f.opened(), 1);
    // win condition: opened == width * height - mine_count
    assert_eq!(f.opened(), f.width() * f.height() - f.bombs());
}

#[test]
fn adjacency_counts_are_exact_around_forced_mine() {
    let f = three_by_three_corner_mine();
    for x in 0..3 {
        for y in 0..3 {
            let expect = if (x - 2i32).abs() <= 1 && (y - 2i32).abs() <= 1 {
                1
            } else {
                0
            };
            assert_eq!(f.cell(x, y).bombs, expect, "count at ({}, {})", x, y);
        }
    }
    assert!(f.cell(2, 2).bomb);
}

#[test]
fn corner_reveal_cascades_to_everything_but_the_mine() {
    let mut f = three_by_three_corner_mine();
    assert_eq!(f.cell(0, 0).bombs, 0);
    let hit = f.open(0, 0);
    assert!(!hit);
    for x in 0..3 {
        for y in 0..3 {
            if x == 2 && y == 2 {
                assert!(!f.cell(x, y).opened);
            } else {
                assert!(f.cell(x, y).opened, "cell ({}, {}) should be open", x, y);
            }
        }
    }
    assert_eq!(f.opened(), 8);
    // win condition satisfied: every non-mine cell is open
    assert_eq!(f.opened(), f.width() * f.height() - f.bombs());
}

#[test]
fn opening_twice_is_idempotent() {
    let mut f = three_by_three_corner_mine();
    f.open(0, 0);
    let opened = f.opened();
    let flags = f.flags();
    let hit = f.open(0, 0);
    assert!(!hit);
    assert_eq!(f.opened(), opened);
    assert_eq!(f.flags(), flags);
}

#[test]
fn opening_a_mine_reports_the_hit() {
    let mut f = three_by_three_corner_mine();
    let hit = f.open(2, 2);
    assert!(hit);
    assert!(f.cell(2, 2).opened);
    assert_eq!(f.opened(), 1);
}

#[test]
fn flag_then_unflag_restores_the_count() {
    let mut f = Field::new(3, 3, 1).unwrap();
    assert_eq!(f.flags(), 0);
    f.flag(1, 1);
    assert!(f.cell(1, 1).flag);
    assert_eq!(f.flags(), 1);
    f.flag(1, 1);
    assert!(!f.cell(1, 1).flag);
    assert_eq!(f.flags(), 0);
}

#[test]
fn flagging_an_open_cell_is_a_no_op() {
    let mut f = three_by_three_corner_mine();
    f.open(0, 0);
    f.flag(0, 0);
    assert!(!f.cell(0, 0).flag);
    assert_eq!(f.flags(), 0);
}

#[test]
fn opening_a_flagged_cell_clears_the_flag_but_not_the_count() {
    // the engine's historical bookkeeping: open clears the flag without
    // decrementing the flag counter
    let mut f = three_by_three_corner_mine();
    f.flag(0, 0);
    assert_eq!(f.flags(), 1);
    let hit = f.open(0, 0);
    assert!(!hit);
    assert!(f.cell(0, 0).opened);
    assert!(!f.cell(0, 0).flag);
    assert_eq!(f.flags(), 1);
}

#[test]
fn cascade_stops_at_flags_and_numbered_cells() {
    let mut f = Field::new(5, 1, 1).unwrap();
    assert!(f.place_mine(4, 0));
    f.finish_generation();
    f.flag(2, 0);
    let hit = f.open(0, 0);
    assert!(!hit);
    assert!(f.cell(0, 0).opened);
    assert!(f.cell(1, 0).opened);
    // the flagged cell blocks the flood and stays closed and flagged
    assert!(!f.cell(2, 0).opened);
    assert!(f.cell(2, 0).flag);
    // nothing beyond the flag was opened
    assert!(!f.cell(3, 0).opened);
    assert!(!f.cell(4, 0).opened);
    assert_eq!(f.opened(), 2);
}

#[test]
fn open_all_exposes_exactly_the_mistakes() {
    let mut f = Field::new(2, 2, 1).unwrap();
    assert!(f.place_mine(0, 0));
    f.finish_generation();
    f.flag(0, 1); // wrong flag on a non-mine
    let hit = f.open(1, 1);
    assert!(!hit);
    assert_eq!(f.opened(), 1);
    f.open_all();
    // exactly the two mistakes were opened: opened goes from 1 to 3
    assert_eq!(f.opened(), 3);
    // the unflagged mine is exposed
    assert!(f.cell(0, 0).opened);
    // the wrong flag is exposed, flag left in place
    assert!(f.cell(0, 1).opened);
    assert!(f.cell(0, 1).flag);
    // a plain closed cell with no mine and no flag stays closed
    assert!(!f.cell(1, 0).opened);
    // the already open cell stays open
    assert!(f.cell(1, 1).opened);
}

#[test]
fn auto_open_reveals_neighbours_once_flags_suffice() {
    let mut f = three_by_three_corner_mine();
    f.open(1, 1); // numbered cell (count 1), opens only itself
    assert_eq!(f.opened(), 1);
    // too few flags: the chord does nothing
    assert!(!f.auto_open(1, 1));
    assert_eq!(f.opened(), 1);
    // flag the mine, then chord: all unflagged neighbours open
    f.flag(2, 2);
    let hit = f.auto_open(1, 1);
    assert!(!hit);
    for x in 0..3 {
        for y in 0..3 {
            if x == 2 && y == 2 {
                assert!(!f.cell(x, y).opened);
                assert!(f.cell(x, y).flag);
            } else {
                assert!(f.cell(x, y).opened);
            }
        }
    }
}

#[test]
fn auto_open_on_a_closed_cell_is_a_no_op() {
    let mut f = three_by_three_corner_mine();
    assert!(!f.auto_open(1, 1));
    assert_eq!(f.opened(), 0);
}

#[test]
fn auto_open_with_a_wrong_flag_hits_the_mine() {
    let mut f = three_by_three_corner_mine();
    f.open(1, 1);
    f.flag(1, 2); // wrong guess: the mine is at (2, 2)
    let hit = f.auto_open(1, 1);
    assert!(hit);
    // the mine was revealed
    assert!(f.cell(2, 2).opened);
    assert!(f.cell(2, 2).bomb);
    // the wrongly flagged cell was skipped
    assert!(!f.cell(1, 2).opened);
}

#[test]
fn check_bombs_recomputes_one_cell() {
    let mut f = Field::new(2, 2, 1).unwrap();
    assert!(f.place_mine(1, 1));
    assert_eq!(f.cell(0, 0).bombs, 0);
    f.check_bombs(0, 0);
    assert_eq!(f.cell(0, 0).bombs, 1);
}

#[test]
fn random_generation_fills_the_target_away_from_the_seed() {
    // on a 2x2 grid with the seed at (0, 0), the exclusion rule leaves
    // exactly one legal cell, so the random placement is forced
    let mut f = Field::new(2, 2, 1).unwrap();
    let hit = f.open(0, 0);
    assert!(!hit);
    assert!(f.cell(1, 1).bomb);
    assert!(!f.cell(0, 0).bomb);
    assert!(!f.cell(0, 1).bomb);
    assert!(!f.cell(1, 0).bomb);
    assert_eq!(f.cell(0, 0).bombs, 1);
    assert!(f.cell(0, 0).opened);
    assert_eq!(f.opened(), 1);
}

#[test]
fn counters_stay_within_the_grid_size() {
    let mut f = three_by_three_corner_mine();
    f.flag(0, 0);
    f.flag(0, 1);
    f.open(0, 0);
    f.open(1, 1);
    f.open_all();
    let total = f.width() * f.height();
    assert!(0 <= f.opened() && f.opened() <= total);
    assert!(0 <= f.flags() && f.flags() <= total);
}

#[test]
fn random_generation_places_exactly_the_target() {
    let mut f = Field::new(9, 9, 10).unwrap();
    let hit = f.open(4, 4);
    assert!(!hit);
    let mut mines = 0;
    for x in 0..9 {
        for y in 0..9 {
            if f.cell(x, y).bomb {
                mines += 1;
            }
            // no mine shares the seed's row or column
            if x == 4 || y == 4 {
                assert!(!f.cell(x, y).bomb);
            }
        }
    }
    assert_eq!(mines, 10);
    // every adjacency count is exact
    for x in 0..9i32 {
        for y in 0..9i32 {
            let mut n = 0;
            for a in (x - 1).max(0)..=(x + 1).min(8) {
                for b in (y - 1).max(0)..=(y + 1).min(8) {
                    if f.cell(a, b).bomb {
                        n += 1;
                    }
                }
            }
            assert_eq!(f.cell(x, y).bombs, n);
        }
    }
}

#[test]
fn auto_open_stops_at_the_first_mine_in_order() {
    // mines at (1, 2) and (2, 2); the chord around (1, 1) walks the
    // neighbourhood in ascending x, then y, and stops at (1, 2), so the
    // unflagged mine at (2, 2), later in the walk, is never attempted
    let mut f = Field::new(3, 3, 2).unwrap();
    assert!(f.place_mine(1, 2));
    assert!(f.place_mine(2, 2));
    f.finish_generation();
    f.open(1, 1);
    assert_eq!(f.cell(1, 1).bombs, 2);
    f.flag(0, 1); // two wrong flags, enough to fire the chord
    f.flag(0, 2);
    let hit = f.auto_open(1, 1);
    assert!(hit);
    // the first unflagged closed mine in the walk was revealed
    assert!(f.cell(1, 2).opened && f.cell(1, 2).bomb);
    // the mine after the stopping point stays closed
    assert!(!f.cell(2, 2).opened);
    // flagged cells were never opened
    assert!(!f.cell(0, 1).opened && f.cell(0, 1).flag);
    assert!(!f.cell(0, 2).opened && f.cell(0, 2).flag);
    // cells attempted (or flooded) before the stop are open
    assert!(f.cell(0, 0).opened);
    assert!(f.cell(1, 0).opened);
    assert!(f.cell(2, 0).opened);
    assert!(f.cell(2, 1).opened);
}
