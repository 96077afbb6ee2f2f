//! Reading a map: its lines, its shape, its gates and its tiles.

use vstd::prelude::*;
use vstd::utf8::encode_utf8;

use crate::level::{lemma_cell_index, lemma_distinct_cells, Grid, Level};
use crate::point::Point;
use crate::tiles::{flags_of_symbol, ObstacleType};

verus! {

/// Why a text is not a map.
#[derive(Clone, Copy, Debug, PartialEq, Eq, Structural)]
pub enum ParseError {
    /// The first line has no `.`.
    NoEntry,
    /// The last line has no `.`.
    NoExit,
    /// The number of cells does not fit the machine's words.
    TooLarge,
}

/// Whether `i` is the place of the first `.` of the line.
pub open spec fn is_first_empty(line: Seq<char>, i: int) -> bool {
    &&& 0 <= i < line.len()
    &&& line[i] == '.'
    &&& forall|k: int| 0 <= k < i ==> line[k] != '.'
}

/// Whether the line has a `.` at all.
pub open spec fn has_empty(line: Seq<char>) -> bool {
    exists|i: int| 0 <= i < line.len() && line[i] == '.'
}

/// The place of the first `.` of a line that has one.
pub open spec fn first_empty(line: Seq<char>) -> int {
    choose|i: int| is_first_empty(line, i)
}

/// A line has one first `.` at most.
pub proof fn lemma_first_empty_is_unique(line: Seq<char>, i: int)
    requires
        is_first_empty(line, i),
    ensures
        first_empty(line) == i,
        has_empty(line),
{
    let j = first_empty(line);
    assert(is_first_empty(line, j));
    if j < i {
        assert(line[j] != '.');
    } else if i < j {
        assert(line[i] != '.');
    }
}

/// The place of the first `.` of a line that has one, counted in characters.
pub fn find_first_empty(line: &str) -> (found: Result<usize, &'static str>)
    ensures
        (match found {
            Ok(i) => is_first_empty(line@, i as int),
            Err(message) => !has_empty(line@) && message@ == "No blanks in line"@,
        }),
{
    let bytes: usize = line.as_bytes().len();
    let mut i: usize = 0;
    proof {
        lemma_chars_fit_bytes(line@);
    }
    for c in it: line.chars()
        invariant
            i == it.index(),
            line@.len() <= bytes,
            it.seq() == line@,
            forall|k: int| 0 <= k < i ==> line@[k] != '.',
    {
        if c == '.' {
            return Ok(i);
        }
        i += 1;
    }
    Err("No blanks in line")
}

/// How many characters stand between `from` and the next line feed, or the
/// end of the text.
pub open spec fn line_len(text: Seq<char>, from: int) -> nat
    decreases text.len() - from,
{
    if from < 0 || from >= text.len() || text[from] == '\n' {
        0
    } else {
        1 + line_len(text, from + 1)
    }
}

/// The line that starts at `from`: what stands before the next line feed,
/// less a carriage return directly before that line feed.
pub open spec fn line_at(text: Seq<char>, from: int) -> Seq<char> {
    let end = from + line_len(text, from);
    if end < text.len() && from < end && text[end - 1] == '\r' {
        text.subrange(from, end - 1)
    } else {
        text.subrange(from, end)
    }
}

/// How many characters stand at or behind `from`.
pub open spec fn left_from(text: Seq<char>, from: int) -> nat {
    if 0 <= from < text.len() {
        (text.len() - from) as nat
    } else {
        0
    }
}

/// The lines of what stands behind `from`.
pub open spec fn lines_from(text: Seq<char>, from: int) -> Seq<Seq<char>>
    decreases left_from(text, from),
{
    if from < 0 || from >= text.len() {
        Seq::<Seq<char>>::empty()
    } else {
        seq![line_at(text, from)] + lines_from(text, from + line_len(text, from) + 1)
    }
}

/// The lines of a text. A line ends with a line feed, or with a carriage
/// return and a line feed, neither of which belongs to it; the last line may
/// end with the text.
pub open spec fn text_lines(text: Seq<char>) -> Seq<Seq<char>> {
    lines_from(text, 0)
}

/// A stretch without a line feed, with a line feed or the end of the text
/// behind it, is what is left of a line.
pub proof fn lemma_line_len(text: Seq<char>, from: int, to: int)
    requires
        0 <= from <= to <= text.len(),
        forall|k: int| from <= k < to ==> text[k] != '\n',
        to == text.len() || text[to] == '\n',
    ensures
        line_len(text, from) == to - from,
    decreases to - from,
{
    if from < to {
        lemma_line_len(text, from + 1, to);
    }
}

/// The characters of each of the given lines.
pub open spec fn lines_view(lines: Seq<&str>) -> Seq<Seq<char>> {
    Seq::new(lines.len(), |i: int| lines[i]@)
}

/// Splits a text into its lines.
pub fn split_lines<'a>(input: &'a str) -> (lines: Vec<&'a str>)
    ensures
        lines_view(lines@) == text_lines(input@),
{
    let ghost text = input@;
    let bytes: usize = input.as_bytes().len();
    let mut lines: Vec<&'a str> = Vec::new();
    let mut start: usize = 0;
    let mut i: usize = 0;
    let mut after_cr: bool = false;
    proof {
        lemma_chars_fit_bytes(text);
        assert(lines_view(lines@) + lines_from(text, 0) =~= text_lines(text));
    }
    for c in it: input.chars()
        invariant
            text == input@,
            it.seq() == text,
            text.len() <= bytes,
            i == it.index(),
            start <= i,
            after_cr <==> i > start && text[i - 1] == '\r',
            forall|k: int| start <= k < i ==> text[k] != '\n',
            lines_view(lines@) + lines_from(text, start as int) == text_lines(text),
    {
        if c == '\n' {
            let end: usize = if after_cr {
                i - 1
            } else {
                i
            };
            let line: &'a str = input.substring_char(start, end);
            proof {
                lemma_line_len(text, start as int, i as int);
                assert(line@ == line_at(text, start as int));
                assert(lines_view(lines@.push(line)) =~= lines_view(lines@) + seq![line@]);
                assert(lines_view(lines@.push(line)) + lines_from(text, i + 1) =~= lines_view(
                    lines@,
                ) + lines_from(text, start as int));
            }
            lines.push(line);
            start = i + 1;
            after_cr = false;
        } else {
            after_cr = c == '\r';
        }
        i += 1;
    }
    if start < i {
        let line: &'a str = input.substring_char(start, i);
        proof {
            lemma_line_len(text, start as int, i as int);
            assert(line@ == line_at(text, start as int));
            assert(lines_from(text, i + 1) =~= Seq::<Seq<char>>::empty());
            assert(lines_view(lines@.push(line)) =~= lines_view(lines@) + seq![line@]);
            assert(lines_view(lines@.push(line)) =~= text_lines(text));
        }
        lines.push(line);
    } else {
        assert(lines_view(lines@) =~= text_lines(text));
    }
    lines
}

/// The length of a line in bytes of its UTF-8 encoding.
pub open spec fn byte_len(line: Seq<char>) -> nat {
    encode_utf8(line).len()
}

/// The length in bytes of the longest of the lines.
pub open spec fn longest(lines: Seq<Seq<char>>) -> nat
    decreases lines.len(),
{
    if lines.len() == 0 {
        0
    } else if byte_len(lines.last()) > longest(lines.drop_last()) {
        byte_len(lines.last())
    } else {
        longest(lines.drop_last())
    }
}

/// A line has no more characters than bytes.
pub proof fn lemma_chars_fit_bytes(line: Seq<char>)
    ensures
        line.len() <= byte_len(line),
    decreases line.len(),
{
    if line.len() > 0 {
        lemma_chars_fit_bytes(line.drop_first());
    }
}

/// No line is longer than the longest.
pub proof fn lemma_longest_bounds(lines: Seq<Seq<char>>, y: int)
    requires
        0 <= y < lines.len(),
    ensures
        lines[y].len() <= byte_len(lines[y]) <= longest(lines),
    decreases lines.len(),
{
    lemma_chars_fit_bytes(lines[y]);
    if y < lines.len() - 1 {
        lemma_longest_bounds(lines.drop_last(), y);
    }
}

/// The flags that the lines give the cell in column `x` and row `y`: those of
/// the character that stands there, and none where the line is too short.
pub open spec fn tile_of(lines: Seq<Seq<char>>, x: int, y: int) -> u8 {
    if 0 <= y < lines.len() && 0 <= x < lines[y].len() {
        flags_of_symbol(lines[y][x])
    } else {
        0u8
    }
}

/// The grid that the lines spell: as high as there are lines and as wide as
/// the longest of them has bytes, with the entry on the first `.` of the
/// first line and the exit on the first `.` of the last.
pub open spec fn grid_of(lines: Seq<Seq<char>>) -> Grid {
    let width = longest(lines);
    let height = lines.len();
    if height == 0 {
        Grid {
            width,
            height,
            tiles: Seq::new(0, |i: int| 0u8),
            enter: Point { x: 0, y: 0, t: 0 },
            exit: Point { x: 0, y: 0, t: 0 },
        }
    } else {
        Grid {
            width,
            height,
            tiles: Seq::new(
                width * height,
                |i: int| tile_of(lines, i % (width as int), i / (width as int)),
            ),
            enter: Point { x: first_empty(lines[0]) as usize, y: 0, t: 0 },
            exit: Point {
                x: first_empty(lines[height - 1]) as usize,
                y: (height - 1) as usize,
                t: 0,
            },
        }
    }
}

/// What reading a text gives: the grid that its lines spell, unless the grid
/// would have more cells than the machine can count, or the first or the
/// last line lacks its gap.
pub open spec fn parsed(text: Seq<char>) -> Result<Grid, ParseError> {
    let lines = text_lines(text);
    if longest(lines) * lines.len() > usize::MAX {
        Err(ParseError::TooLarge)
    } else if lines.len() == 0 {
        Ok(grid_of(lines))
    } else if !has_empty(lines[0]) {
        Err(ParseError::NoEntry)
    } else if !has_empty(lines[lines.len() - 1]) {
        Err(ParseError::NoExit)
    } else {
        Ok(grid_of(lines))
    }
}

/// The length in bytes of the longest of the lines.
fn longest_line(lines: &Vec<&str>) -> (width: usize)
    ensures
        width == longest(lines_view(lines@)),
{
    let ghost all = lines_view(lines@);
    let mut width: usize = 0;
    let mut y: usize = 0;
    while y < lines.len()
        invariant
            y <= lines.len(),
            all == lines_view(lines@),
            width == longest(all.subrange(0, y as int)),
        decreases lines.len() - y,
    {
        let line: &str = lines[y];
        proof {
            assert(all.subrange(0, y + 1).drop_last() =~= all.subrange(0, y as int));
            assert(all.subrange(0, y + 1).last() == line@);
        }
        let bytes: usize = line.as_bytes().len();
        if bytes > width {
            width = bytes;
        }
        y += 1;
    }
    assert(all.subrange(0, y as int) =~= all);
    width
}

impl Level {
    /// Reads a map from its text.
    pub fn parse(input: &str) -> (read: Result<Level, ParseError>)
        ensures
            (match read {
                Ok(level) => level.wf() && parsed(input@) == Ok::<Grid, ParseError>(level@),
                Err(e) => parsed(input@) == Err::<Grid, ParseError>(e),
            }),
    {
        let lines: Vec<&str> = split_lines(input);
        let ghost all = text_lines(input@);
        let height: usize = lines.len();
        let width: usize = longest_line(&lines);
        if width.checked_mul(height).is_none() {
            return Err(ParseError::TooLarge);
        }
        let mut state: Level = Level::new(width, height);
        if height == 0 {
            assert(width * height == 0) by (nonlinear_arith)
                requires
                    height == 0,
            ;
            assert(all.len() == 0);
            assert(state@.tiles =~= grid_of(all).tiles);
            return Ok(state);
        }
        let enter_x: usize = match find_first_empty(lines[0]) {
            Ok(x) => x,
            Err(_) => {
                assert(lines[0]@ == all[0]);
                return Err(ParseError::NoEntry);
            },
        };
        let exit_x: usize = match find_first_empty(lines[height - 1]) {
            Ok(x) => x,
            Err(_) => {
                assert(lines[0]@ == all[0]);
                assert(lines[height - 1]@ == all[height - 1]);
                return Err(ParseError::NoExit);
            },
        };
        proof {
            assert(lines[0]@ == all[0]);
            assert(lines[height - 1]@ == all[height - 1]);
            lemma_first_empty_is_unique(all[0], enter_x as int);
            lemma_first_empty_is_unique(all[height - 1], exit_x as int);
            lemma_longest_bounds(all, 0);
            lemma_longest_bounds(all, height - 1);
        }
        state.set_gates(enter_x, exit_x, height - 1);
        let ghost w = width as int;
        let ghost h = height as int;
        proof {
            assert forall|a: int, b: int| 0 <= a < w && 0 <= b < h implies #[trigger] state@.tile(
                a,
                b,
            ) == 0u8 by {
                lemma_cell_index(w, h, a, b);
            }
        }
        let mut y: usize = 0;
        while y < height
            invariant
                y <= height,
                state.wf(),
                all == lines_view(lines@),
                height == lines.len(),
                w == width,
                h == height,
                state@.width == width,
                state@.height == height,
                width == longest(all),
                state@.enter == grid_of(all).enter,
                state@.exit == grid_of(all).exit,
                forall|a: int, b: int|
                    0 <= a < w && 0 <= b < h ==> #[trigger] state@.tile(a, b) == (if b < y {
                        tile_of(all, a, b)
                    } else {
                        0u8
                    }),
            decreases height - y,
        {
            let line: &str = lines[y];
            let mut x: usize = 0;
            proof {
                lemma_longest_bounds(all, y as int);
                assert(line@ == all[y as int]);
            }
            for c in it: line.chars()
                invariant
                    y < height,
                    state.wf(),
                    all == lines_view(lines@),
                    height == lines.len(),
                    w == width,
                    h == height,
                    state@.width == width,
                    state@.height == height,
                    state@.enter == grid_of(all).enter,
                    state@.exit == grid_of(all).exit,
                    it.seq() == line@,
                    line@ == all[y as int],
                    line@.len() <= width,
                    x == it.index(),
                    forall|a: int, b: int|
                        0 <= a < w && 0 <= b < h ==> #[trigger] state@.tile(a, b) == (if b < y || (b
                            == y && a < x) {
                            tile_of(all, a, b)
                        } else {
                            0u8
                        }),
            {
                let ghost before = state@;
                proof {
                    lemma_cell_index(w, h, x as int, y as int);
                }
                match ObstacleType::from_char(c) {
                    Some(kind) => {
                        state.set_tile(x, y, kind.tile_flags());
                    },
                    None => {},
                }
                proof {
                    assert forall|a: int, b: int| 0 <= a < w && 0 <= b < h implies #[trigger] state@.tile(
                        a,
                        b,
                    ) == (if b < y || (b == y && a < x + 1) {
                        tile_of(all, a, b)
                    } else {
                        0u8
                    }) by {
                        lemma_cell_index(w, h, a, b);
                        if a != x || b != y {
                            lemma_distinct_cells(w, a, b, x as int, y as int);
                            assert(state@.tile(a, b) == before.tile(a, b));
                        }
                    }
                }
                x += 1;
            }
            y += 1;
        }
        proof {
            let g = grid_of(all);
            assert forall|i: int| 0 <= i < w * h implies state@.tiles[i] == g.tiles[i] by {
                lemma_index_is_cell(w, h, i);
                assert(state@.tile(i % w, i / w) == tile_of(all, i % w, i / w));
            }
            assert(state@.tiles =~= g.tiles);
        }
        Ok(state)
    }
}

/// Every index below `w * h` is that of a cell.
pub proof fn lemma_index_is_cell(w: int, h: int, i: int)
    requires
        0 <= i < w * h,
        0 <= w,
    ensures
        0 <= i % w < w,
        0 <= i / w < h,
        (i / w) * w + i % w == i,
{
    assert(w > 0) by (nonlinear_arith)
        requires
            0 <= i < w * h,
            0 <= w,
    ;
    vstd::arithmetic::div_mod::lemma_fundamental_div_mod(i, w);
    vstd::arithmetic::div_mod::lemma_mod_bound(i, w);
    let row = i / w;
    assert(0 <= row < h && w * row == row * w) by (nonlinear_arith)
        requires
            i == w * row + i % w,
            0 <= i % w < w,
            0 <= i < w * h,
    ;
}

} // verus!
