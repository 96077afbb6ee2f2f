//! Writing a map and reading it again gives the same grid.

use vstd::prelude::*;
use vstd::utf8::{is_ascii_chars, is_ascii_chars_encode_utf8};

use crate::level::Grid;
use crate::parse::{
    grid_of,
    lemma_first_empty_is_unique,
    lemma_index_is_cell,
    lemma_line_len,
    line_at,
    lines_from,
    longest,
    parsed,
    text_lines,
    ParseError,
};
use crate::render::{lemma_frozen_picture, lemma_text_index};
use crate::tiles::{
    flags_of_symbol,
    glyph,
    ObstacleType,
    EAST_FLAG,
    NORTH_FLAG,
    SOUTH_FLAG,
    WEST_FLAG,
};

verus! {

/// Flags that one character of a map can spell: those of the six kinds.
pub open spec fn is_catalog(tile: u8) -> bool {
    exists|kind: ObstacleType| tile == #[trigger] kind.flags()
}

impl Grid {
    /// The characters of row `y`.
    pub open spec fn row(self, y: int) -> Seq<char> {
        Seq::new(self.width, |x: int| glyph(self.tile(x, y)))
    }

    /// The rows, from the first to the last.
    pub open spec fn rows(self) -> Seq<Seq<char>> {
        Seq::new(self.height, |y: int| self.row(y))
    }

    /// Whether column `x` holds the first cell of row `y` that shows as `.`.
    pub open spec fn is_first_gap(self, x: int, y: int) -> bool {
        &&& 0 <= x < self.width
        &&& glyph(self.tile(x, y)) == '.'
        &&& forall|k: int| 0 <= k < x ==> glyph(self.tile(k, y)) != '.'
    }

    /// A grid that a map can spell: it has a cell, no more cells than the
    /// machine can count, on each cell the flags of one of the six kinds, its
    /// entry on the first gap of the first row and its exit on the first gap
    /// of the last.
    pub open spec fn is_plain(self) -> bool {
        &&& self.tiles.len() == self.width * self.height
        &&& self.width * self.height <= usize::MAX
        &&& self.height >= 1
        &&& forall|x: int, y: int| #[trigger] self.in_bounds(x, y) ==> is_catalog(self.tile(x, y))
        &&& self.enter.y == 0
        &&& self.enter.t == 0
        &&& self.is_first_gap(self.enter.x as int, 0)
        &&& self.exit.y == self.height - 1
        &&& self.exit.t == 0
        &&& self.is_first_gap(self.exit.x as int, self.height - 1)
    }
}

/// A tile with the flags of one of the six kinds shows as that kind's symbol.
pub proof fn lemma_catalog_glyph(kind: ObstacleType)
    ensures
        glyph(kind.flags()) == kind.symbol(),
        flags_of_symbol(glyph(kind.flags())) == kind.flags(),
{
    assert(0x00u8 & 0x80u8 != 0x80u8) by (bit_vector);
    assert(0x80u8 & 0x80u8 == 0x80u8 && 0x80u8 & 0x01u8 == 0u8 && 0x80u8 & 0x02u8 == 0u8 && 0x80u8
        & 0x04u8 == 0u8 && 0x80u8 & 0x08u8 == 0u8) by (bit_vector);
    assert((0x80u8 | 0x01u8) & 0x80u8 == 0x80u8 && (0x80u8 | 0x01u8) & 0x01u8 != 0u8 && (0x80u8
        | 0x01u8) & 0x02u8 == 0u8 && (0x80u8 | 0x01u8) & 0x04u8 == 0u8 && (0x80u8 | 0x01u8)
        & 0x08u8 == 0u8) by (bit_vector);
    assert((0x80u8 | 0x02u8) & 0x80u8 == 0x80u8 && (0x80u8 | 0x02u8) & 0x01u8 == 0u8 && (0x80u8
        | 0x02u8) & 0x02u8 != 0u8 && (0x80u8 | 0x02u8) & 0x04u8 == 0u8 && (0x80u8 | 0x02u8)
        & 0x08u8 == 0u8) by (bit_vector);
    assert((0x80u8 | 0x04u8) & 0x80u8 == 0x80u8 && (0x80u8 | 0x04u8) & 0x01u8 == 0u8 && (0x80u8
        | 0x04u8) & 0x02u8 == 0u8 && (0x80u8 | 0x04u8) & 0x04u8 != 0u8 && (0x80u8 | 0x04u8)
        & 0x08u8 == 0u8) by (bit_vector);
    assert((0x80u8 | 0x08u8) & 0x80u8 == 0x80u8 && (0x80u8 | 0x08u8) & 0x01u8 == 0u8 && (0x80u8
        | 0x08u8) & 0x02u8 == 0u8 && (0x80u8 | 0x08u8) & 0x04u8 == 0u8 && (0x80u8 | 0x08u8)
        & 0x08u8 != 0u8) by (bit_vector);
}

/// The characters that show tiles are plain ASCII, and none of them ends a
/// line.
pub proof fn lemma_glyph_is_printable(tile: u8)
    ensures
        glyph(tile) != '\n',
        glyph(tile) != '\r',
        '\0' <= glyph(tile) <= '\u{7f}',
{
}

/// All rows of a grid are as long as the grid is wide, in characters and in
/// bytes.
proof fn lemma_rows_are_even(g: Grid, n: int)
    requires
        0 <= n <= g.height,
    ensures
        longest(g.rows().subrange(0, n)) == (if n == 0 {
            0
        } else {
            g.width
        }),
    decreases n,
{
    if n > 0 {
        lemma_rows_are_even(g, n - 1);
        let head = g.rows().subrange(0, n);
        assert(head.drop_last() =~= g.rows().subrange(0, n - 1));
        assert(head.last() == g.row(n - 1));
        assert(is_ascii_chars(g.row(n - 1))) by {
            assert forall|x: int| 0 <= x < g.row(n - 1).len() implies '\0' <= #[trigger] g.row(
                n - 1,
            )[x] <= '\u{7f}' by {
                lemma_glyph_is_printable(g.tile(x, n - 1));
            }
        }
        is_ascii_chars_encode_utf8(g.row(n - 1));
    }
}

/// Behind the start of row `y` the text of a grid holds the rows from `y` on.
proof fn lemma_lines_are_rows(g: Grid, y: int)
    requires
        g.width >= 1,
        0 <= y <= g.height,
        g.height >= 1,
    ensures
        lines_from(g.ascii(), y * g.stride()) == g.rows().subrange(y, g.height as int),
    decreases g.height - y,
{
    let text = g.ascii();
    let w = g.width as int;
    let h = g.height as int;
    let from = y * g.stride();
    if y == h {
        assert(from == w * h + h) by (nonlinear_arith)
            requires
                from == h * (w + 1),
        ;
        assert(g.rows().subrange(y, h) =~= Seq::<Seq<char>>::empty());
    } else {
        lemma_text_index(w, h, 0, y);
        lemma_text_index(w, h, w, y);
        assert forall|k: int| from <= k < from + w implies text[k] != '\n' by {
            lemma_text_index(w, h, k - from, y);
            lemma_glyph_is_printable(g.tile(k - from, y));
        }
        lemma_line_len(text, from, from + w);
        lemma_text_index(w, h, w - 1, y);
        lemma_glyph_is_printable(g.tile(w - 1, y));
        assert(line_at(text, from) =~= g.row(y)) by {
            assert forall|x: int| 0 <= x < w implies text[from + x] == g.row(y)[x] by {
                lemma_text_index(w, h, x, y);
            }
        }
        assert(from + w + 1 == (y + 1) * g.stride()) by (nonlinear_arith)
            requires
                from == y * g.stride(),
                g.stride() == w + 1,
        ;
        lemma_lines_are_rows(g, y + 1);
        assert(g.rows().subrange(y, h) =~= seq![g.row(y)] + g.rows().subrange(y + 1, h));
    }
}

/// Round trip: reading the text of a plain grid gives the grid back, cell for
/// cell and gate for gate.
pub proof fn lemma_ascii_round_trip(g: Grid)
    requires
        g.is_plain(),
    ensures
        parsed(g.ascii()) == Ok::<Grid, ParseError>(g),
{
    let w = g.width as int;
    let h = g.height as int;
    let rows = g.rows();
    lemma_lines_are_rows(g, 0);
    assert(rows.subrange(0, h) =~= rows);
    assert(text_lines(g.ascii()) == rows);
    lemma_rows_are_even(g, h);
    assert(longest(rows) == g.width);
    assert(rows[0][g.enter.x as int] == '.');
    assert(rows[h - 1][g.exit.x as int] == '.');
    lemma_first_empty_is_unique(rows[0], g.enter.x as int);
    lemma_first_empty_is_unique(rows[h - 1], g.exit.x as int);
    let back = grid_of(rows);
    assert forall|i: int| 0 <= i < w * h implies back.tiles[i] == g.tiles[i] by {
        lemma_index_is_cell(w, h, i);
        let x = i % w;
        let y = i / w;
        assert(g.in_bounds(x, y));
        assert(rows[y][x] == glyph(g.tile(x, y)));
        let kind = choose|kind: ObstacleType| g.tile(x, y) == #[trigger] kind.flags();
        lemma_catalog_glyph(kind);
    }
    assert(back.tiles =~= g.tiles);
}

/// Round trip of the first picture: reading the picture of minute 0 of a
/// plain grid gives a grid with the same shape and gates that holds on every
/// cell the flags which the cell carries at minute 0.
pub proof fn lemma_picture_round_trip(g: Grid, later: Grid)
    requires
        g.is_plain(),
        g.frozen_at(0, later),
    ensures
        parsed(g.picture(0)) == Ok::<Grid, ParseError>(later),
        forall|x: int, y: int| #[trigger]
            g.in_bounds(x, y) ==> later.tile(x, y) == g.occupancy(x, y, 0),
{
    let w = g.width as int;
    let h = g.height as int;
    lemma_frozen_picture(g, 0, later);
    assert forall|x: int, y: int| #[trigger] later.in_bounds(x, y) implies is_catalog(
        later.tile(x, y),
    ) by {
        assert(g.in_bounds(x, y));
        if !g.on_border(x, y) {
            lemma_frozen_interior_is_catalog(g, x, y);
        }
    }
    assert(later.is_first_gap(g.enter.x as int, 0)) by {
        assert forall|k: int| 0 <= k <= g.enter.x implies #[trigger] later.tile(k, 0) == g.tile(
            k,
            0,
        ) by {
            assert(g.in_bounds(k, 0));
        }
    }
    let last = h - 1;
    assert(later.is_first_gap(g.exit.x as int, last)) by {
        assert forall|k: int| 0 <= k <= g.exit.x implies #[trigger] later.tile(k, last) == g.tile(
            k,
            last,
        ) by {
            assert(g.in_bounds(k, last));
        }
    }
    lemma_ascii_round_trip(later);
}

/// At minute 0 an interior cell of a plain grid carries the flags of one of
/// the six kinds.
proof fn lemma_frozen_interior_is_catalog(g: Grid, x: int, y: int)
    requires
        g.is_plain(),
        g.interior(x, y),
    ensures
        is_catalog(g.occupancy(x, y, 0)),
{
    let iw = g.inner_width();
    let ih = g.inner_height();
    vstd::arithmetic::div_mod::lemma_fundamental_div_mod_converse(x - 1, iw, 0, x - 1);
    vstd::arithmetic::div_mod::lemma_fundamental_div_mod_converse(y - 1, ih, 0, y - 1);
    assert(g.in_bounds(x, y));
    let tile = g.tile(x, y);
    let kind = choose|kind: ObstacleType| tile == #[trigger] kind.flags();
    let m = g.movers(x, y, 0);
    assert(m == (tile & NORTH_FLAG) | (tile & EAST_FLAG) | (tile & SOUTH_FLAG) | (tile & WEST_FLAG));
    let after = g.occupancy(x, y, 0);
    assert(after == 0u8 || after == tile) by (bit_vector)
        requires
            tile == 0u8 || tile == 0x80u8 || tile == 0x80u8 | 0x01u8 || tile == 0x80u8 | 0x02u8
                || tile == 0x80u8 | 0x04u8 || tile == 0x80u8 | 0x08u8,
            m == (tile & 0x01u8) | (tile & 0x02u8) | (tile & 0x04u8) | (tile & 0x08u8),
            after == (if m != 0u8 {
                m | 0x80u8
            } else {
                0u8
            }),
    ;
    if after == 0u8 {
        assert(after == ObstacleType::Empty.flags());
    } else {
        assert(after == kind.flags());
    }
}

} // verus!
