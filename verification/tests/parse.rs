use blizzard_basin::day23;
use blizzard_basin::day24;
use blizzard_basin::level::Level;
use blizzard_basin::parse::{find_first_empty, split_lines, ParseError};
use blizzard_basin::point::Point;

const COMPLEX: &str = "#.######\n#>>.<^<#\n#.<..<<#\n#>v.><>#\n#<^v^^>#\n######.#";

#[test]
fn find_first_empty_gives_the_first_dot() {
    assert_eq!(find_first_empty("#.####"), Ok(1));
    assert_eq!(find_first_empty("##.#."), Ok(2));
    assert_eq!(find_first_empty("."), Ok(0));
    assert_eq!(find_first_empty("é."), Ok(1));
}

#[test]
fn find_first_empty_fails_without_a_dot() {
    assert_eq!(find_first_empty("####"), Err("No blanks in line"));
    assert_eq!(find_first_empty(""), Err("No blanks in line"));
}

#[test]
fn split_lines_parts_at_line_feeds() {
    assert_eq!(split_lines("ab\ncd"), vec!["ab", "cd"]);
    assert_eq!(split_lines("ab\ncd\n"), vec!["ab", "cd"]);
    assert_eq!(split_lines("ab\n\ncd"), vec!["ab", "", "cd"]);
    assert_eq!(split_lines("\n"), vec![""]);
    assert_eq!(split_lines(""), Vec::<&str>::new());
}

#[test]
fn split_lines_drops_a_carriage_return_before_a_line_feed() {
    assert_eq!(split_lines("ab\r\ncd\r\n"), vec!["ab", "cd"]);
    assert_eq!(split_lines("ab\r\n\r\ncd"), vec!["ab", "", "cd"]);
    assert_eq!(split_lines("a\rb\ncd\r"), vec!["a\rb", "cd\r"]);
    assert_eq!(split_lines("ab\r\r\n"), vec!["ab\r"]);
}

#[test]
fn split_lines_agrees_with_the_standard_library() {
    for text in ["", "\n", "\r\n", "a", "a\n", "a\r", "a\r\nb", "\n\na\r\n\r\n", "é\r\nü\n", COMPLEX] {
        let expected: Vec<&str> = text.lines().collect();
        assert_eq!(split_lines(text), expected);
    }
}

#[test]
fn parse_reads_shape_gates_and_tiles() {
    let level = Level::parse(COMPLEX).expect("the map is well formed");
    assert_eq!(level.width(), 8);
    assert_eq!(level.height(), 6);
    assert_eq!(level.enter(), Point { x: 1, y: 0, t: 0 });
    assert_eq!(level.exit(), Point { x: 6, y: 5, t: 0 });
    assert_eq!(level.get_tile(0, 0), 0x80);
    assert_eq!(level.get_tile(1, 0), 0x00);
    assert_eq!(level.get_tile(1, 1), 0x82);
    assert_eq!(level.get_tile(3, 1), 0x00);
    assert_eq!(level.get_tile(4, 1), 0x88);
    assert_eq!(level.get_tile(5, 1), 0x81);
    assert_eq!(level.get_tile(2, 3), 0x84);
    assert_eq!(level.get_tile(6, 5), 0x00);
    assert_eq!(level.get_tile(7, 5), 0x80);
}

#[test]
fn parse_takes_both_kinds_of_line_ending() {
    let unix = Level::parse("#.##\n#<.#\n##.#\n").expect("the map is well formed");
    let dos = Level::parse("#.##\r\n#<.#\r\n##.#\r\n").expect("the map is well formed");
    assert_eq!(dos.width(), 4);
    assert_eq!(dos.height(), 3);
    assert_eq!(unix.to_ascii(), dos.to_ascii());
    assert_eq!(unix.exit(), dos.exit());
}

#[test]
fn parse_pads_short_lines_with_empty_cells() {
    let level = Level::parse("#.###\n#\n###.#").expect("the map is well formed");
    assert_eq!(level.width(), 5);
    assert_eq!(level.height(), 3);
    assert_eq!(level.get_tile(0, 1), 0x80);
    for x in 1..5 {
        assert_eq!(level.get_tile(x, 1), 0x00);
    }
}

#[test]
fn parse_ignores_characters_outside_the_catalog() {
    let level = Level::parse("#.x#\n#E?#\n#V.#").expect("the map is well formed");
    assert_eq!(level.get_tile(2, 0), 0x00);
    assert_eq!(level.get_tile(1, 1), 0x00);
    assert_eq!(level.get_tile(2, 1), 0x00);
    assert_eq!(level.get_tile(1, 2), 0x00);
    assert_eq!(level.exit(), Point { x: 2, y: 2, t: 0 });
}

#[test]
fn parse_measures_the_width_in_bytes() {
    let level = Level::parse("#.é#\n#.##").expect("the map is well formed");
    assert_eq!(level.width(), 5);
    assert_eq!(level.get_tile(3, 0), 0x80);
    assert_eq!(level.get_tile(4, 0), 0x00);
}

#[test]
fn parse_of_one_line_puts_both_gates_on_it() {
    let level = Level::parse("##.#.").expect("the map is well formed");
    assert_eq!(level.height(), 1);
    assert_eq!(level.enter(), Point { x: 2, y: 0, t: 0 });
    assert_eq!(level.exit(), Point { x: 2, y: 0, t: 0 });
}

#[test]
fn parse_of_an_empty_text_gives_an_empty_level() {
    let level = Level::parse("").expect("an empty text is an empty map");
    assert_eq!(level.width(), 0);
    assert_eq!(level.height(), 0);
    assert_eq!(level.enter(), Point { x: 0, y: 0, t: 0 });
    assert_eq!(level.exit(), Point { x: 0, y: 0, t: 0 });
}

#[test]
fn parse_rejects_a_first_line_without_a_gap() {
    assert_eq!(Level::parse("####\n#..#\n##.#").err(), Some(ParseError::NoEntry));
    assert_eq!(Level::parse("\n").err(), Some(ParseError::NoEntry));
    assert_eq!(Level::parse("####\n####").err(), Some(ParseError::NoEntry));
}

#[test]
fn parse_rejects_a_last_line_without_a_gap() {
    assert_eq!(Level::parse("#.##\n#..#\n####").err(), Some(ParseError::NoExit));
    assert_eq!(Level::parse("#.##\n#..#\n").err(), None);
    assert_eq!(Level::parse("#.##\n#..#\n\n").err(), Some(ParseError::NoExit));
}

#[test]
fn picture_of_minute_zero_reads_back_as_the_flags_of_minute_zero() {
    for text in [COMPLEX, "#.###\n#.#>#\n#v#.#\n###.#", "#.#\n#.#"] {
        let level = Level::parse(text).expect("the map is well formed");
        let picture: String = level.at(0).to_ascii().iter().collect();
        let back = Level::parse(&picture).expect("the picture is a map");
        assert_eq!(back.width(), level.width());
        assert_eq!(back.height(), level.height());
        assert_eq!(back.enter(), level.enter());
        assert_eq!(back.exit(), level.exit());
        for y in 0..level.height() {
            for x in 0..level.width() {
                assert_eq!(back.get_tile(x, y), level.future_tile(x, y, 0));
                assert_eq!(back.future_tile(x, y, 0), level.future_tile(x, y, 0));
            }
        }
    }
}

#[test]
fn text_of_a_map_reads_back_as_the_same_level() {
    let level = Level::parse(COMPLEX).expect("the map is well formed");
    let text: String = level.to_ascii().iter().collect();
    assert_eq!(text, COMPLEX);
    let back = Level::parse(&text).expect("the text is a map");
    for y in 0..level.height() {
        for x in 0..level.width() {
            assert_eq!(back.get_tile(x, y), level.get_tile(x, y));
        }
    }
}

#[test]
fn arguments_name_their_file() {
    assert_eq!(day24::Args::default().file, "./inputs/day24/input.txt");
    assert_eq!(day24::Args::new(String::from("map.txt")).file, "map.txt");
    assert_eq!(day23::Args::new(None).file, None);
    assert_eq!(day23::Args::new(Some(String::from("a"))).file, Some(String::from("a")));
}
