use blizzard_basin::level::Level;
use blizzard_basin::point::Point;

const SIMPLE: &str = "#.#####\n#.....#\n#>....#\n#.....#\n#...v.#\n#.....#\n#####.#";

const COMPLEX: &str = "#.######\n#>>.<^<#\n#.<..<<#\n#>v.><>#\n#<^v^^>#\n######.#";

fn basin(text: &str) -> Level {
    Level::parse(text).expect("the map is well formed")
}

/// Checks that the path is a route of the level with the given cost.
fn assert_route(level: &Level, path: &[Point], cost: usize) {
    assert_eq!(path.len(), cost + 1);
    assert_eq!(path[0], level.enter());
    assert!(level.is_exit_point(&path[cost]));
    assert_eq!(path[cost].t, cost);
    for pair in path.windows(2) {
        let (from, to) = (pair[0], pair[1]);
        assert_eq!(to.t, from.t + 1);
        assert!(from.x.abs_diff(to.x) + from.y.abs_diff(to.y) <= 1);
        assert!(to.x < level.width() && to.y < level.height());
        assert!(level.validate_point(&to));
    }
}

#[test]
fn toy_grid_with_one_blizzard_takes_three_moves() {
    let level = basin("#.####\n#v...#\n#....#\n#.####");
    let (path, cost) = level.solve().expect("there is a route");
    assert_eq!(cost, 3);
    assert_eq!(
        path,
        vec![
            Point { x: 1, y: 0, t: 0 },
            Point { x: 1, y: 1, t: 1 },
            Point { x: 1, y: 2, t: 2 },
            Point { x: 1, y: 3, t: 3 },
        ]
    );
}

#[test]
fn blizzard_in_the_way_costs_one_minute_of_waiting() {
    let level = basin("#.####\n#....#\n#v...#\n#.####");
    let (path, cost) = level.solve().expect("there is a route");
    assert_eq!(cost, 4);
    assert_route(&level, &path, 4);
    assert_eq!(path[1], Point { x: 1, y: 0, t: 1 });
    assert_eq!(path[2], Point { x: 1, y: 1, t: 2 });
}

#[test]
fn empty_basin_is_crossed_in_manhattan_distance() {
    let level = basin("#.###\n#...#\n#...#\n#...#\n###.#");
    let (path, cost) = level.solve().expect("there is a route");
    assert_eq!(cost, 6);
    assert_route(&level, &path, 6);
}

#[test]
fn simple_map_is_crossed_in_ten_moves() {
    let level = basin(SIMPLE);
    let (path, cost) = level.solve().expect("there is a route");
    assert_eq!(cost, 10);
    assert_route(&level, &path, 10);
}

#[test]
fn complex_map_is_crossed_in_eighteen_moves() {
    let level = basin(COMPLEX);
    let (path, cost) = level.solve().expect("there is a route");
    assert_eq!(cost, 18);
    assert_route(&level, &path, 18);
}

#[test]
fn basin_that_is_always_blocked_has_no_route() {
    let level = basin("#.###\n#^^^#\n###.#");
    assert_eq!(level.solve(), None);
}

#[test]
fn basin_cut_by_a_wall_of_standing_blizzards_has_no_route() {
    let level = basin("#.#####\n#.....#\n#^^^^^#\n#.....#\n#####.#");
    // With an interior three rows high the blizzards come back every third
    // minute, so this row is free two minutes out of three.
    assert!(level.solve().is_some());
    let blocked = basin("#.#####\n#<<<<<#\n#####.#");
    assert_eq!(blocked.solve(), None);
}

#[test]
fn level_whose_entry_is_its_exit_is_solved_at_once() {
    let level = Level::new(3, 3);
    assert_eq!(level.solve(), Some((vec![Point { x: 0, y: 0, t: 0 }], 0)));
    let nothing = Level::new(0, 0);
    assert_eq!(nothing.solve(), Some((vec![Point { x: 0, y: 0, t: 0 }], 0)));
}

#[test]
fn horizon_counts_cells_times_period() {
    assert_eq!(basin(COMPLEX).horizon(), 8 * 6 * 12);
    assert_eq!(basin(SIMPLE).horizon(), 7 * 7 * 5);
    assert_eq!(Level::new(0, 0).horizon(), 0);
}

#[test]
fn expand_stops_at_the_horizon() {
    let level = basin(SIMPLE);
    let start = Point { x: 1, y: 0, t: 4 };
    assert_eq!(level.expand(&start, 4), vec![]);
    assert_eq!(level.expand(&start, 5), level.successors(&start));
}

#[test]
fn heuristic_is_the_manhattan_distance_to_the_exit() {
    let level = basin(COMPLEX);
    assert_eq!(level.heuristic(&Point { x: 1, y: 0, t: 0 }), 10);
    assert_eq!(level.heuristic(&Point { x: 6, y: 4, t: 17 }), 1);
    assert_eq!(level.heuristic(&Point { x: 6, y: 5, t: 3 }), 0);
}

#[test]
fn heuristic_never_exceeds_what_is_left_of_the_route_found() {
    let level = basin(COMPLEX);
    let (path, cost) = level.solve().expect("there is a route");
    for (i, p) in path.iter().enumerate() {
        assert!(level.heuristic(p) <= cost - i);
    }
}
