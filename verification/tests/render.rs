use blizzard_basin::level::Level;
use blizzard_basin::point::Point;

const SIMPLE: &str = "#.#####\n#.....#\n#>....#\n#.....#\n#...v.#\n#.....#\n#####.#";

fn text_of(chars: &[char]) -> String {
    chars.iter().collect()
}

fn map_of(text: &str) -> Level {
    Level::parse(text).expect("the map is well formed")
}

#[test]
fn to_ascii_writes_the_map_that_was_read() {
    let level = map_of(SIMPLE);
    assert_eq!(text_of(&level.to_ascii()), SIMPLE);
}

#[test]
fn to_ascii_has_a_line_feed_between_rows_and_none_at_the_end() {
    let level = map_of("#.#\n#.#");
    assert_eq!(level.to_ascii(), vec!['#', '.', '#', '\n', '#', '.', '#']);
    assert_eq!(Level::new(0, 0).to_ascii(), Vec::<char>::new());
    assert_eq!(Level::new(2, 1).to_ascii(), vec!['.', '.']);
    assert_eq!(Level::new(1, 3).to_ascii(), vec!['.', '\n', '.', '\n', '.']);
}

#[test]
fn picture_of_minute_three_shows_two_blizzards_on_one_cell() {
    let level = map_of(SIMPLE);
    let expected = "#.#####\n#.....#\n#...2.#\n#.....#\n#.....#\n#.....#\n#####.#";
    assert_eq!(text_of(&level.at(3).to_ascii()), expected);
}

#[test]
fn picture_of_minute_four_shows_the_blizzards_apart_again() {
    let level = map_of(SIMPLE);
    let expected = "#.#####\n#.....#\n#....>#\n#...v.#\n#.....#\n#.....#\n#####.#";
    assert_eq!(text_of(&level.at(4).to_ascii()), expected);
}

#[test]
fn frame_marks_the_agent() {
    let level = map_of(SIMPLE);
    let expected = "#E#####\n#.....#\n#>....#\n#.....#\n#...v.#\n#.....#\n#####.#";
    assert_eq!(text_of(&level.frame(0, &Point { x: 1, y: 0, t: 0 })), expected);
    let expected = "#.#####\n#.....#\n#.>...#\n#.E...#\n#.....#\n#...v.#\n#####.#";
    assert_eq!(text_of(&level.frame(1, &Point { x: 2, y: 3, t: 1 })), expected);
}

#[test]
fn overlapping_south_and_west_blizzards_show_as_two() {
    let mut level = Level::new(1, 1);
    level.set_tile(0, 0, 0x80 | 0x04 | 0x08);
    assert_eq!(level.to_ascii(), vec!['2']);
}

#[test]
fn frames_show_each_point_of_a_path_at_its_own_minute() {
    let level = map_of(SIMPLE);
    let path = vec![
        Point { x: 1, y: 0, t: 0 },
        Point { x: 1, y: 1, t: 1 },
        Point { x: 1, y: 1, t: 2 },
    ];
    let shown: Vec<String> = level.frames(&path).iter().map(|f| text_of(f)).collect();
    assert_eq!(
        shown,
        vec![
            "#E#####\n#.....#\n#>....#\n#.....#\n#...v.#\n#.....#\n#####.#",
            "#.#####\n#E....#\n#.>...#\n#.....#\n#.....#\n#...v.#\n#####.#",
            "#.#####\n#E..v.#\n#..>..#\n#.....#\n#.....#\n#.....#\n#####.#",
        ]
    );
    assert_eq!(level.frames(&Vec::new()), Vec::<Vec<char>>::new());
}

#[test]
fn frames_of_the_route_found_put_the_agent_on_free_cells() {
    let level = map_of(SIMPLE);
    let (path, cost) = level.solve().expect("there is a route");
    let shown = level.frames(&path);
    assert_eq!(shown.len(), cost + 1);
    for (i, p) in path.iter().enumerate() {
        let mut expected = level.at(i).to_ascii();
        let index = p.y * (level.width() + 1) + p.x;
        assert_eq!(expected[index], '.');
        expected[index] = 'E';
        assert_eq!(shown[i], expected);
    }
}
