use blizzard_basin::cycle::greatest_common_divisor;
use blizzard_basin::level::Level;
use blizzard_basin::point::Point;

const SIMPLE: &str = "#.#####\n#.....#\n#>....#\n#.....#\n#...v.#\n#.....#\n#####.#";

const COMPLEX: &str = "#.######\n#>>.<^<#\n#.<..<<#\n#>v.><>#\n#<^v^^>#\n######.#";

fn level_of(text: &str) -> Level {
    Level::parse(text).expect("the map is well formed")
}

/// The flags on every interior cell after `t` single steps of every blizzard.
fn simulate(level: &Level, t: usize) -> Vec<Vec<u8>> {
    let w = level.width();
    let h = level.height();
    let mut movers: Vec<(usize, usize, u8)> = Vec::new();
    for y in 1..h - 1 {
        for x in 1..w - 1 {
            for bit in [0x01u8, 0x02, 0x04, 0x08] {
                if level.get_tile(x, y) & bit != 0 {
                    movers.push((x, y, bit));
                }
            }
        }
    }
    for _ in 0..t {
        for m in movers.iter_mut() {
            match m.2 {
                0x01 => m.1 = if m.1 == 1 { h - 2 } else { m.1 - 1 },
                0x04 => m.1 = if m.1 == h - 2 { 1 } else { m.1 + 1 },
                0x02 => m.0 = if m.0 == w - 2 { 1 } else { m.0 + 1 },
                _ => m.0 = if m.0 == 1 { w - 2 } else { m.0 - 1 },
            }
        }
    }
    let mut cells = vec![vec![0u8; w]; h];
    for (x, y, bit) in movers {
        cells[y][x] |= bit | 0x80;
    }
    cells
}

#[test]
fn new_level_is_empty_with_gates_at_the_origin() {
    let level = Level::new(4, 3);
    assert_eq!(level.width(), 4);
    assert_eq!(level.height(), 3);
    assert_eq!(level.enter(), Point { x: 0, y: 0, t: 0 });
    assert_eq!(level.exit(), Point { x: 0, y: 0, t: 0 });
    for y in 0..3 {
        for x in 0..4 {
            assert_eq!(level.get_tile(x, y), 0);
        }
    }
}

#[test]
fn set_tile_changes_one_cell() {
    let mut level = Level::new(4, 3);
    level.set_tile(2, 1, 0x84);
    for y in 0..3 {
        for x in 0..4 {
            let expected = if (x, y) == (2, 1) { 0x84 } else { 0 };
            assert_eq!(level.get_tile(x, y), expected);
        }
    }
}

#[test]
fn set_gates_moves_entry_and_exit() {
    let mut level = Level::new(4, 3);
    level.set_gates(1, 2, 2);
    assert_eq!(level.enter(), Point { x: 1, y: 0, t: 0 });
    assert_eq!(level.exit(), Point { x: 2, y: 2, t: 0 });
}

#[test]
fn future_tile_follows_the_two_blizzards_of_the_simple_map() {
    let level = level_of(SIMPLE);
    assert_eq!(level.future_tile(1, 2, 0), 0x82);
    assert_eq!(level.future_tile(4, 4, 0), 0x84);
    assert_eq!(level.future_tile(2, 2, 1), 0x82);
    assert_eq!(level.future_tile(1, 2, 1), 0x00);
    assert_eq!(level.future_tile(4, 5, 1), 0x84);
    assert_eq!(level.future_tile(4, 1, 2), 0x84);
    assert_eq!(level.future_tile(3, 2, 2), 0x82);
    assert_eq!(level.future_tile(4, 2, 3), 0x86);
    assert_eq!(level.future_tile(5, 2, 4), 0x82);
    assert_eq!(level.future_tile(4, 3, 4), 0x84);
    assert_eq!(level.future_tile(1, 2, 5), 0x82);
    assert_eq!(level.future_tile(4, 4, 5), 0x84);
}

#[test]
fn future_tile_agrees_with_step_by_step_simulation() {
    for text in [SIMPLE, COMPLEX] {
        let level = level_of(text);
        let period = level.period();
        for t in 0..=3 * period {
            let cells = simulate(&level, t);
            for y in 1..level.height() - 1 {
                for x in 1..level.width() - 1 {
                    assert_eq!(level.future_tile(x, y, t), cells[y][x], "cell ({x}, {y}) at {t}");
                }
            }
        }
    }
}

#[test]
fn future_tile_is_periodic_with_the_least_common_multiple() {
    let level = level_of(COMPLEX);
    assert_eq!(level.period(), 12);
    for t in 0..40 {
        for y in 0..level.height() {
            for x in 0..level.width() {
                assert_eq!(level.future_tile(x, y, t), level.future_tile(x, y, t + 12));
            }
        }
    }
}

#[test]
fn future_tile_handles_minutes_far_beyond_the_period() {
    let level = level_of(COMPLEX);
    let far: usize = 1_000_000_000_007;
    for y in 0..level.height() {
        for x in 0..level.width() {
            assert_eq!(level.future_tile(x, y, far), level.future_tile(x, y, far % 12));
            assert_eq!(
                level.future_tile(x, y, usize::MAX),
                level.future_tile(x, y, usize::MAX % 12)
            );
        }
    }
}

#[test]
fn border_cells_never_change() {
    let level = level_of(COMPLEX);
    let w = level.width();
    let h = level.height();
    for t in [0usize, 1, 5, 12, 13, 1000, usize::MAX] {
        for x in 0..w {
            assert_eq!(level.future_tile(x, 0, t), level.get_tile(x, 0));
            assert_eq!(level.future_tile(x, h - 1, t), level.get_tile(x, h - 1));
        }
        for y in 0..h {
            assert_eq!(level.future_tile(0, y, t), level.get_tile(0, y));
            assert_eq!(level.future_tile(w - 1, y, t), level.get_tile(w - 1, y));
        }
    }
}

#[test]
fn interior_walls_do_not_block_later_minutes() {
    let level = level_of("#.###\n#.#.#\n###.#");
    assert_eq!(level.get_tile(2, 1), 0x80);
    assert_eq!(level.future_tile(2, 1, 0), 0x00);
    assert_eq!(level.future_tile(2, 1, 9), 0x00);
}

#[test]
fn validate_point_tests_the_cell_at_the_point_s_own_minute() {
    let level = level_of(SIMPLE);
    assert!(!level.validate_point(&Point { x: 1, y: 2, t: 0 }));
    assert!(level.validate_point(&Point { x: 1, y: 2, t: 1 }));
    assert!(!level.validate_point(&Point { x: 2, y: 2, t: 1 }));
    assert!(level.validate_point(&Point { x: 1, y: 0, t: 3 }));
    assert!(!level.validate_point(&Point { x: 0, y: 0, t: 3 }));
    assert!(!level.validate_point(&Point { x: 4, y: 2, t: 3 }));
}

#[test]
fn is_exit_point_ignores_the_minute() {
    let level = level_of(SIMPLE);
    assert!(level.is_exit_point(&Point { x: 5, y: 6, t: 0 }));
    assert!(level.is_exit_point(&Point { x: 5, y: 6, t: 77 }));
    assert!(!level.is_exit_point(&Point { x: 5, y: 5, t: 0 }));
    assert!(!level.is_exit_point(&Point { x: 1, y: 0, t: 0 }));
}

#[test]
fn successors_from_the_entry_are_to_wait_or_to_step_in() {
    let level = level_of(SIMPLE);
    assert_eq!(
        level.successors(&Point { x: 1, y: 0, t: 0 }),
        vec![(Point { x: 1, y: 0, t: 1 }, 1), (Point { x: 1, y: 1, t: 1 }, 1)]
    );
}

#[test]
fn successors_leave_out_cells_that_a_blizzard_reaches() {
    let level = level_of(SIMPLE);
    // At minute 1 the blizzard that drifts east stands on (2, 2).
    assert_eq!(
        level.successors(&Point { x: 2, y: 1, t: 0 }),
        vec![
            (Point { x: 2, y: 1, t: 1 }, 1),
            (Point { x: 3, y: 1, t: 1 }, 1),
            (Point { x: 1, y: 1, t: 1 }, 1),
        ]
    );
}

#[test]
fn successors_past_the_grid_s_edge_are_left_out() {
    let level = level_of(SIMPLE);
    assert_eq!(
        level.successors(&Point { x: 5, y: 6, t: 0 }),
        vec![(Point { x: 5, y: 6, t: 1 }, 1), (Point { x: 5, y: 5, t: 1 }, 1)]
    );
}

#[test]
fn at_freezes_the_grid_of_a_minute() {
    let level = level_of(SIMPLE);
    let later = level.at(3);
    assert_eq!(later.width(), 7);
    assert_eq!(later.height(), 7);
    assert_eq!(later.enter(), level.enter());
    assert_eq!(later.exit(), level.exit());
    for y in 0..7 {
        for x in 0..7 {
            assert_eq!(later.get_tile(x, y), level.future_tile(x, y, 3));
        }
    }
    assert_eq!(later.get_tile(4, 2), 0x86);
}

#[test]
fn period_is_the_least_common_multiple_of_the_inner_sides() {
    assert_eq!(level_of(SIMPLE).period(), 5);
    assert_eq!(level_of(COMPLEX).period(), 12);
    assert_eq!(level_of("#.#\n#.#").period(), 1);
    assert_eq!(Level::new(0, 0).period(), 1);
    assert_eq!(Level::new(5, 9).period(), 21);
}

#[test]
fn greatest_common_divisor_of_small_numbers() {
    assert_eq!(greatest_common_divisor(6, 4), 2);
    assert_eq!(greatest_common_divisor(4, 6), 2);
    assert_eq!(greatest_common_divisor(7, 5), 1);
    assert_eq!(greatest_common_divisor(0, 9), 9);
    assert_eq!(greatest_common_divisor(9, 0), 9);
    assert_eq!(greatest_common_divisor(120, 25), 5);
}
