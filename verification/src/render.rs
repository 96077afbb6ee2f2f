//! The grid as text: one character for each cell, the rows parted by line
//! feeds.

use vstd::arithmetic::div_mod::lemma_fundamental_div_mod_converse;
use vstd::prelude::*;

use crate::level::{lemma_cell_index, Grid, Level};
use crate::point::Point;
use crate::tiles::{glyph, tile_glyph};

verus! {

impl Grid {
    /// The length of the text: a character for each cell, and a line feed
    /// after each row but the last.
    pub open spec fn text_len(self) -> nat {
        if self.height == 0 {
            0
        } else {
            (self.width * self.height + self.height - 1) as nat
        }
    }

    /// The length of a row of the text with its line feed.
    pub open spec fn stride(self) -> int {
        (self.width + 1) as int
    }

    /// Where the character of the cell in column `x` and row `y` stands.
    pub open spec fn text_index(self, x: int, y: int) -> int {
        y * self.stride() + x
    }

    /// The text of the layout of minute 0.
    pub open spec fn ascii(self) -> Seq<char> {
        Seq::new(
            self.text_len(),
            |k: int|
                if k % self.stride() == self.width {
                    '\n'
                } else {
                    glyph(self.tile(k % self.stride(), k / self.stride()))
                },
        )
    }

    /// The text of the grid as it stands at minute `t`.
    pub open spec fn picture(self, t: int) -> Seq<char> {
        Seq::new(
            self.text_len(),
            |k: int|
                if k % self.stride() == self.width {
                    '\n'
                } else {
                    glyph(self.occupancy(k % self.stride(), k / self.stride(), t))
                },
        )
    }

    /// The picture of minute `t` with an `E` on the cell of `agent`.
    pub open spec fn frame(self, t: int, agent: Point) -> Seq<char> {
        self.picture(t).update(self.text_index(agent.x as int, agent.y as int), 'E')
    }
}

/// The place in the text of a cell, or of the line feed behind a row, and
/// back: the index `y * (w + 1) + x` lies in row `y` at offset `x`.
pub proof fn lemma_text_index(w: int, h: int, x: int, y: int)
    requires
        0 <= x <= w,
        0 <= y < h,
    ensures
        (y * (w + 1) + x) / (w + 1) == y,
        (y * (w + 1) + x) % (w + 1) == x,
        0 <= y * (w + 1) + x <= w * h + h - 1,
        x < w || y < h - 1 ==> y * (w + 1) + x < w * h + h - 1,
        y * (w + 1) + x == y * w + y + x,
{
    lemma_fundamental_div_mod_converse(y * (w + 1) + x, w + 1, y, x);
    assert(0 <= y * (w + 1) && y * (w + 1) + (w + 1) <= h * (w + 1) && h * (w + 1) == w * h + h
        && y * (w + 1) == y * w + y) by (nonlinear_arith)
        requires
            0 <= y < h,
            0 <= w,
    ;
    if y < h - 1 {
        assert(y * (w + 1) + 2 * (w + 1) <= h * (w + 1)) by (nonlinear_arith)
            requires
                0 <= y < h - 1,
                0 <= w,
        ;
    }
}

/// Every index of the text is that of a cell or of a line feed behind a row.
pub proof fn lemma_text_position(w: int, h: int, k: int)
    requires
        0 <= w,
        0 <= k < w * h + h - 1,
    ensures
        0 <= k / (w + 1) < h,
        0 <= k % (w + 1) <= w,
        k == (k / (w + 1)) * (w + 1) + k % (w + 1),
{
    let row = k / (w + 1);
    let col = k % (w + 1);
    vstd::arithmetic::div_mod::lemma_fundamental_div_mod(k, w + 1);
    vstd::arithmetic::div_mod::lemma_mod_bound(k, w + 1);
    assert(row < h && 0 <= row && (w + 1) * row == row * (w + 1)) by (nonlinear_arith)
        requires
            k == (w + 1) * row + col,
            0 <= col <= w,
            0 <= k < w * h + h - 1,
            0 <= w,
    ;
}

/// The text of a grid that was frozen at minute `t` is the picture of that
/// minute.
pub proof fn lemma_frozen_picture(g: Grid, t: int, later: Grid)
    requires
        g.frozen_at(t, later),
    ensures
        later.ascii() == g.picture(t),
{
    let w = g.width as int;
    let h = g.height as int;
    assert forall|k: int| 0 <= k < g.text_len() implies later.ascii()[k] == g.picture(t)[k] by {
        lemma_text_position(w, h, k);
        if k % (w + 1) != w {
            assert(g.in_bounds(k % (w + 1), k / (w + 1)));
        }
    }
    assert(later.ascii() =~= g.picture(t));
}

impl Level {
    /// The text of the layout of minute 0.
    pub fn to_ascii(&self) -> (buf: Vec<char>)
        requires
            self.wf(),
        ensures
            buf@ == self@.ascii(),
    {
        let width: usize = self.width();
        let height: usize = self.height();
        let ghost w = width as int;
        let ghost h = height as int;
        let ghost text = self@.ascii();
        let mut buf: Vec<char> = Vec::new();
        let mut y: usize = 0;
        while y < height
            invariant
                self.wf(),
                width == self@.width,
                height == self@.height,
                w == width,
                h == height,
                text == self@.ascii(),
                y <= height,
                y == 0 ==> buf@.len() == 0,
                y > 0 ==> buf@.len() == y * (w + 1) - 1,
                buf@.len() <= text.len(),
                forall|k: int| 0 <= k < buf@.len() ==> buf@[k] == text[k],
            decreases height - y,
        {
            if y > 0 {
                proof {
                    lemma_text_index(w, h, w, y - 1);
                    assert((y - 1) * (w + 1) + w == y * (w + 1) - 1) by (nonlinear_arith);
                    assert(text[y * (w + 1) - 1] == '\n');
                }
                buf.push('\n');
            }
            proof {
                lemma_text_index(w, h, 0, y as int);
            }
            let mut x: usize = 0;
            while x < width
                invariant
                    self.wf(),
                    width == self@.width,
                    height == self@.height,
                    w == width,
                    h == height,
                    text == self@.ascii(),
                    y < height,
                    x <= width,
                    buf@.len() == y * (w + 1) + x,
                    buf@.len() <= text.len(),
                    forall|k: int| 0 <= k < buf@.len() ==> buf@[k] == text[k],
                decreases width - x,
            {
                proof {
                    lemma_cell_index(w, h, x as int, y as int);
                    lemma_text_index(w, h, x as int, y as int);
                }
                let tile: u8 = self.get_tile(x, y);
                assert(text[y * (w + 1) + x] == glyph(tile));
                buf.push(tile_glyph(tile));
                x += 1;
            }
            proof {
                assert((y + 1) * (w + 1) - 1 == y * (w + 1) + w) by (nonlinear_arith);
                lemma_text_index(w, h, w, y as int);
            }
            y += 1;
        }
        proof {
            if height > 0 {
                assert(height * (w + 1) - 1 == w * h + h - 1) by (nonlinear_arith)
                    requires
                        height == h,
                ;
            }
            assert(buf@ =~= text);
        }
        buf
    }

    /// The picture of minute `t` with an `E` on the cell of `agent`.
    pub fn frame(&self, t: usize, agent: &Point) -> (buf: Vec<char>)
        requires
            self.wf(),
            self@.in_bounds(agent.x as int, agent.y as int),
        ensures
            buf@ == self@.frame(t as int, *agent),
    {
        let later: Level = self.at(t);
        let mut buf: Vec<char> = later.to_ascii();
        proof {
            lemma_frozen_picture(self@, t as int, later@);
            lemma_text_index(
                self@.width as int,
                self@.height as int,
                agent.x as int,
                agent.y as int,
            );
            lemma_cell_index(
                self@.width as int,
                self@.height as int,
                agent.x as int,
                agent.y as int,
            );
        }
        assert(buf@.len() == self@.text_len());
        assert(buf.len() <= usize::MAX);
        let index: usize = agent.y * self.width() + agent.y + agent.x;
        buf.set(index, 'E');
        buf
    }

    /// The frames of a walk: for each point of the path the picture of the
    /// minute that is the point's place in the path, with the agent on the
    /// point's cell.
    pub fn frames(&self, path: &Vec<Point>) -> (shown: Vec<Vec<char>>)
        requires
            self.wf(),
            forall|i: int|
                0 <= i < path@.len() ==> self@.in_bounds(
                    (#[trigger] path@[i]).x as int,
                    path@[i].y as int,
                ),
        ensures
            shown@.len() == path@.len(),
            forall|i: int|
                0 <= i < path@.len() ==> (#[trigger] shown@[i])@ == self@.frame(i, path@[i]),
    {
        let mut shown: Vec<Vec<char>> = Vec::new();
        let mut i: usize = 0;
        while i < path.len()
            invariant
                self.wf(),
                i <= path@.len(),
                shown@.len() == i,
                forall|k: int|
                    0 <= k < path@.len() ==> self@.in_bounds(
                        (#[trigger] path@[k]).x as int,
                        path@[k].y as int,
                    ),
                forall|k: int| 0 <= k < i ==> (#[trigger] shown@[k])@ == self@.frame(k, path@[k]),
            decreases path@.len() - i,
        {
            let point: Point = path[i];
            let buf: Vec<char> = self.frame(i, &point);
            shown.push(buf);
            i += 1;
        }
        shown
    }
}

} // verus!
