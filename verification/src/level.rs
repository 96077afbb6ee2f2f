//! The grid: its layout at minute 0, and what stands on a cell at any later
//! minute, computed from that layout alone.

use vstd::arithmetic::div_mod::{
    lemma_add_mod_noop_right,
    lemma_mod_add_multiples_vanish,
    lemma_sub_mod_noop_right,
};
use vstd::prelude::*;

use crate::point::Point;
use crate::tiles::{COLLIDES_FLAG, EAST_FLAG, NORTH_FLAG, SOUTH_FLAG, WEST_FLAG};

verus! {

/// The mathematical content of a [`Level`]: the flags of every cell at minute
/// 0, row after row, and the two gates.
pub struct Grid {
    pub width: nat,
    pub height: nat,
    pub tiles: Seq<u8>,
    pub enter: Point,
    pub exit: Point,
}

impl Grid {
    /// A coordinate pair that is a cell of the grid, or the origin where the
    /// grid has no cell there.
    pub open spec fn near(self, p: Point) -> bool {
        &&& p.x < self.width || p.x == 0
        &&& p.y < self.height || p.y == 0
    }

    /// One flag byte for each cell; the walk starts at minute 0; both gates are
    /// cells of the grid, or lie at the origin.
    pub open spec fn wf(self) -> bool {
        &&& self.tiles.len() == self.width * self.height
        &&& self.enter.t == 0
        &&& self.near(self.enter)
        &&& self.near(self.exit)
    }

    pub open spec fn in_bounds(self, x: int, y: int) -> bool {
        0 <= x < self.width && 0 <= y < self.height
    }

    /// The flags at minute 0 of the cell in column `x` and row `y`.
    pub open spec fn tile(self, x: int, y: int) -> u8 {
        self.tiles[y * self.width + x]
    }

    /// The outer ring, which no blizzard enters.
    pub open spec fn on_border(self, x: int, y: int) -> bool {
        x == 0 || y == 0 || x == self.width - 1 || y == self.height - 1
    }

    pub open spec fn interior(self, x: int, y: int) -> bool {
        self.in_bounds(x, y) && !self.on_border(x, y)
    }

    pub open spec fn inner_width(self) -> int {
        self.width - 2
    }

    pub open spec fn inner_height(self) -> int {
        self.height - 2
    }

    /// The row from which a blizzard that drifts north has reached row `y`
    /// after `t` minutes: `t` rows further down, wrapping inside the interior.
    pub open spec fn north_origin(self, y: int, t: int) -> int {
        1 + (y - 1 + t) % self.inner_height()
    }

    /// The row from which a blizzard that drifts south has reached row `y`
    /// after `t` minutes.
    pub open spec fn south_origin(self, y: int, t: int) -> int {
        1 + (y - 1 - t) % self.inner_height()
    }

    /// The column from which a blizzard that drifts east has reached column
    /// `x` after `t` minutes.
    pub open spec fn east_origin(self, x: int, t: int) -> int {
        1 + (x - 1 - t) % self.inner_width()
    }

    /// The column from which a blizzard that drifts west has reached column
    /// `x` after `t` minutes.
    pub open spec fn west_origin(self, x: int, t: int) -> int {
        1 + (x - 1 + t) % self.inner_width()
    }

    /// The direction bits of the blizzards that stand on an interior cell at
    /// minute `t`.
    pub open spec fn movers(self, x: int, y: int, t: int) -> u8 {
        (self.tile(x, self.north_origin(y, t)) & NORTH_FLAG) | (self.tile(
            self.east_origin(x, t),
            y,
        ) & EAST_FLAG) | (self.tile(x, self.south_origin(y, t)) & SOUTH_FLAG) | (self.tile(
            self.west_origin(x, t),
            y,
        ) & WEST_FLAG)
    }

    /// The flags of a cell at minute `t`. The outer ring keeps its flags of
    /// minute 0. An interior cell carries the direction bits of the blizzards
    /// that have drifted onto it, with the collision bit where there is any.
    pub open spec fn occupancy(self, x: int, y: int, t: int) -> u8 {
        if self.on_border(x, y) {
            self.tile(x, y)
        } else if self.movers(x, y, t) != 0 {
            self.movers(x, y, t) | COLLIDES_FLAG
        } else {
            0u8
        }
    }

    /// Whether the cell can be entered at minute `t`.
    pub open spec fn passable(self, x: int, y: int, t: int) -> bool {
        self.occupancy(x, y, t) & COLLIDES_FLAG != COLLIDES_FLAG
    }

    /// A point that lies in the grid on a cell that can be entered at the
    /// point's own minute.
    pub open spec fn admits(self, p: Point) -> bool {
        self.in_bounds(p.x as int, p.y as int) && self.passable(p.x as int, p.y as int, p.t as int)
    }

    /// The points to which one may go from `p`, in the order of
    /// `p.candidates()`.
    pub open spec fn successors(self, p: Point) -> Seq<Point> {
        p.candidates().filter(|q: Point| self.admits(q))
    }

    pub open spec fn at_exit(self, p: Point) -> bool {
        p.x == self.exit.x && p.y == self.exit.y
    }

    /// The grid as it stands at minute `t`: the same shape and gates, each
    /// cell with its flags of that minute.
    pub open spec fn frozen_at(self, t: int, later: Grid) -> bool {
        &&& later.width == self.width
        &&& later.height == self.height
        &&& later.enter == self.enter
        &&& later.exit == self.exit
        &&& later.tiles.len() == self.width * self.height
        &&& forall|x: int, y: int| #[trigger]
            self.in_bounds(x, y) ==> later.tile(x, y) == self.occupancy(x, y, t)
    }
}

/// The cells of a grid fill its flag sequence without gaps: each cell has an
/// index of its own below `w * h`.
pub proof fn lemma_cell_index(w: int, h: int, x: int, y: int)
    requires
        0 <= x < w,
        0 <= y < h,
    ensures
        0 <= y * w + x < w * h,
{
    assert(0 <= y * w && y * w + w <= h * w && h * w == w * h) by (nonlinear_arith)
        requires
            0 <= y < h,
            0 < w,
    ;
}

/// A grid with an interior is at most a third of the addressable cells wide,
/// and as high.
proof fn lemma_interior_is_small(w: int, h: int, limit: int)
    requires
        3 <= w,
        3 <= h,
        w * h <= limit,
    ensures
        3 * w <= limit,
        3 * h <= limit,
{
    assert(3 * w <= w * h && 3 * h <= w * h) by (nonlinear_arith)
        requires
            3 <= w,
            3 <= h,
    ;
}

/// The grid of one puzzle: a rectangle of flag bytes with an entry and an
/// exit.
#[derive(Debug)]
pub struct Level {
    tiles: Vec<u8>,
    width: usize,
    height: usize,
    enter: Point,
    exit: Point,
}

impl View for Level {
    type V = Grid;

    closed spec fn view(&self) -> Grid {
        Grid {
            width: self.width as nat,
            height: self.height as nat,
            tiles: self.tiles@,
            enter: self.enter,
            exit: self.exit,
        }
    }
}

impl Level {
    /// The view is a well-formed grid whose shape fits the machine's words.
    pub open spec fn wf(&self) -> bool {
        &&& self@.wf()
        &&& self@.width <= usize::MAX
        &&& self@.height <= usize::MAX
        &&& self@.width * self@.height <= usize::MAX
    }

    /// What the fields have to do with the view.
    proof fn lemma_shape(&self)
        ensures
            self@.width == self.width,
            self@.height == self.height,
            self@.tiles == self.tiles@,
            self@.tiles.len() <= usize::MAX,
    {
        assert(self.tiles.len() == self.tiles@.len());
    }

    /// An empty grid of the given shape, with both gates at the origin.
    pub fn new(width: usize, height: usize) -> (level: Level)
        requires
            width * height <= usize::MAX,
        ensures
            level.wf(),
            level@.width == width,
            level@.height == height,
            level@.tiles == Seq::new((width * height) as nat, |i: int| 0u8),
            level@.enter == (Point { x: 0, y: 0, t: 0 }),
            level@.exit == (Point { x: 0, y: 0, t: 0 }),
    {
        let tiles: Vec<u8> = vec![0x00u8; width * height];
        assert(tiles@ =~= Seq::new((width * height) as nat, |i: int| 0u8));
        Level {
            tiles,
            width,
            height,
            enter: Point { x: 0, y: 0, t: 0 },
            exit: Point { x: 0, y: 0, t: 0 },
        }
    }

    pub fn width(&self) -> (w: usize)
        ensures
            w == self@.width,
    {
        self.width
    }

    pub fn height(&self) -> (h: usize)
        ensures
            h == self@.height,
    {
        self.height
    }

    pub fn enter(&self) -> (p: Point)
        ensures
            p == self@.enter,
    {
        self.enter
    }

    pub fn exit(&self) -> (p: Point)
        ensures
            p == self@.exit,
    {
        self.exit
    }

    /// Puts the entry in column `enter_x` of row 0 and the exit in column
    /// `exit_x` of row `exit_y`.
    pub fn set_gates(&mut self, enter_x: usize, exit_x: usize, exit_y: usize)
        requires
            old(self).wf(),
            old(self)@.in_bounds(enter_x as int, 0),
            old(self)@.in_bounds(exit_x as int, exit_y as int),
        ensures
            final(self).wf(),
            final(self)@ == (Grid {
                enter: Point { x: enter_x, y: 0, t: 0 },
                exit: Point { x: exit_x, y: exit_y, t: 0 },
                ..old(self)@
            }),
    {
        self.enter = Point { x: enter_x, y: 0, t: 0 };
        self.exit = Point { x: exit_x, y: exit_y, t: 0 };
    }

    /// The flags at minute 0 of the cell in column `x` and row `y`.
    pub fn get_tile(&self, x: usize, y: usize) -> (tile: u8)
        requires
            self.wf(),
            y * self@.width + x < self@.width * self@.height,
        ensures
            tile == self@.tile(x as int, y as int),
    {
        proof {
            self.lemma_shape();
        }
        self.tiles[(y * self.width) + x]
    }

    /// Overwrites the flags at minute 0 of the cell in column `x` and row `y`.
    pub fn set_tile(&mut self, x: usize, y: usize, val: u8)
        requires
            old(self).wf(),
            y * old(self)@.width + x < old(self)@.width * old(self)@.height,
        ensures
            final(self).wf(),
            final(self)@ == (Grid {
                tiles: old(self)@.tiles.update(y * old(self)@.width + x, val),
                ..old(self)@
            }),
    {
        proof {
            self.lemma_shape();
        }
        let index: usize = (y * self.width) + x;
        self.tiles.set(index, val);
    }

    /// The flags of the cell in column `x` and row `y` at minute `t`, found
    /// with four look-ups into the layout of minute 0, however large `t` is.
    pub fn future_tile(&self, x: usize, y: usize, t: usize) -> (tile: u8)
        requires
            self.wf(),
            self@.in_bounds(x as int, y as int),
        ensures
            tile == self@.occupancy(x as int, y as int, t as int),
    {
        proof {
            self.lemma_shape();
            lemma_cell_index(self.width as int, self.height as int, x as int, y as int);
        }
        if x == 0 || y == 0 || x == self.width - 1 || y == self.height - 1 {
            return self.get_tile(x, y);
        }
        let u: usize = x - 1;
        let v: usize = y - 1;
        let inner_width: usize = self.width - 2;
        let inner_height: usize = self.height - 2;
        let u_mod: usize = t % inner_width;
        let v_mod: usize = t % inner_height;
        proof {
            lemma_interior_is_small(self.width as int, self.height as int, usize::MAX as int);
            let iw = inner_width as int;
            let ih = inner_height as int;
            lemma_add_mod_noop_right(v as int, t as int, ih);
            lemma_add_mod_noop_right(u as int, t as int, iw);
            lemma_sub_mod_noop_right(v as int, t as int, ih);
            lemma_sub_mod_noop_right(u as int, t as int, iw);
            lemma_mod_add_multiples_vanish(v - v_mod, ih);
            lemma_mod_add_multiples_vanish(u - u_mod, iw);
        }
        let north_y: usize = (v + v_mod) % inner_height;
        let south_y: usize = (inner_height + v - v_mod) % inner_height;
        let east_x: usize = (inner_width + u - u_mod) % inner_width;
        let west_x: usize = (u + u_mod) % inner_width;
        assert(north_y + 1 == self@.north_origin(y as int, t as int));
        assert(south_y + 1 == self@.south_origin(y as int, t as int));
        assert(east_x + 1 == self@.east_origin(x as int, t as int));
        assert(west_x + 1 == self@.west_origin(x as int, t as int));
        proof {
            let w = self.width as int;
            let h = self.height as int;
            lemma_cell_index(w, h, x as int, south_y + 1);
            lemma_cell_index(w, h, x as int, north_y + 1);
            lemma_cell_index(w, h, west_x + 1, y as int);
            lemma_cell_index(w, h, east_x + 1, y as int);
        }
        let south_bits: u8 = self.get_tile(x, south_y + 1) & SOUTH_FLAG;
        let north_bits: u8 = self.get_tile(x, north_y + 1) & NORTH_FLAG;
        let west_bits: u8 = self.get_tile(west_x + 1, y) & WEST_FLAG;
        let east_bits: u8 = self.get_tile(east_x + 1, y) & EAST_FLAG;
        let tile: u8 = north_bits | east_bits | south_bits | west_bits;
        if tile > 0 {
            tile | COLLIDES_FLAG
        } else {
            0x00
        }
    }

    /// Whether the point's cell can be entered at the point's minute.
    pub fn validate_point(&self, point: &Point) -> (free: bool)
        requires
            self.wf(),
            self@.in_bounds(point.x as int, point.y as int),
        ensures
            free == self@.passable(point.x as int, point.y as int, point.t as int),
            free == self@.admits(*point),
    {
        let tile: u8 = self.future_tile(point.x, point.y, point.t);
        tile & COLLIDES_FLAG != COLLIDES_FLAG
    }

    /// Whether the point stands on the exit, at whatever minute.
    pub fn is_exit_point(&self, point: &Point) -> (there: bool)
        ensures
            there == self@.at_exit(*point),
            there == (point.manhattan(self@.exit) == 0),
    {
        point.x == self.exit.x && point.y == self.exit.y
    }

    /// The moves from `point` that end in the grid on a cell that is free a
    /// minute later, each at cost 1.
    pub fn successors(&self, point: &Point) -> (next: Vec<(Point, usize)>)
        requires
            self.wf(),
            point.x < usize::MAX,
            point.y < usize::MAX,
            point.t < usize::MAX,
        ensures
            next@ == self@.successors(*point).map_values(|p: Point| (p, 1usize)),
    {
        let moves: Vec<(Point, usize)> = point.moves();
        let ghost all: Seq<Point> = point.candidates();
        let ghost keep = |q: Point| self@.admits(q);
        let mut next: Vec<(Point, usize)> = Vec::new();
        let mut i: usize = 0;
        proof {
            reveal(Seq::filter);
            assert(all.subrange(0, 0) =~= Seq::<Point>::empty());
        }
        while i < moves.len()
            invariant
                self.wf(),
                i <= moves.len(),
                all == point.candidates(),
                keep == (|q: Point| self@.admits(q)),
                moves@ == all.map_values(|p: Point| (p, 1usize)),
                next@ == all.subrange(0, i as int).filter(keep).map_values(|p: Point| (p, 1usize)),
            decreases moves.len() - i,
        {
            let step: (Point, usize) = moves[i];
            let target: Point = step.0;
            let ghost before = all.subrange(0, i as int);
            let ghost now = all.subrange(0, i + 1);
            proof {
                reveal(Seq::filter);
                assert(now.drop_last() =~= before);
                assert(now.last() == target);
                assert(step.1 == 1usize);
            }
            if target.x < self.width && target.y < self.height && self.validate_point(&target) {
                next.push(step);
                assert(next@ =~= now.filter(keep).map_values(|p: Point| (p, 1usize)));
            }
            i += 1;
        }
        assert(all.subrange(0, i as int) =~= all);
        next
    }

    /// The grid as it stands at minute `t`.
    pub fn at(&self, t: usize) -> (later: Level)
        requires
            self.wf(),
        ensures
            later.wf(),
            self@.frozen_at(t as int, later@),
    {
        proof {
            self.lemma_shape();
        }
        let mut state: Level = Level::new(self.width, self.height);
        state.enter = self.enter;
        state.exit = self.exit;
        let mut y: usize = 0;
        while y < self.height
            invariant
                self.wf(),
                state.wf(),
                y <= self.height,
                state@.width == self@.width,
                state@.height == self@.height,
                state@.enter == self@.enter,
                state@.exit == self@.exit,
                forall|a: int, b: int|
                    0 <= a < self@.width && 0 <= b < y ==> #[trigger] state@.tile(a, b)
                        == self@.occupancy(a, b, t as int),
            decreases self.height - y,
        {
            let mut x: usize = 0;
            while x < self.width
                invariant
                    self.wf(),
                    state.wf(),
                    y < self.height,
                    x <= self.width,
                    state@.width == self@.width,
                    state@.height == self@.height,
                    state@.enter == self@.enter,
                    state@.exit == self@.exit,
                    forall|a: int, b: int|
                        0 <= a < self@.width && 0 <= b < y ==> #[trigger] state@.tile(a, b)
                            == self@.occupancy(a, b, t as int),
                    forall|a: int|
                        0 <= a < x ==> #[trigger] state@.tile(a, y as int) == self@.occupancy(
                            a,
                            y as int,
                            t as int,
                        ),
                decreases self.width - x,
            {
                let ghost before = state@;
                proof {
                    lemma_cell_index(self.width as int, self.height as int, x as int, y as int);
                }
                let tile: u8 = self.future_tile(x, y, t);
                state.set_tile(x, y, tile);
                proof {
                    let w = self.width as int;
                    assert forall|a: int, b: int| 0 <= a < w && 0 <= b < y implies #[trigger] state@.tile(
                        a,
                        b,
                    ) == self@.occupancy(a, b, t as int) by {
                        lemma_distinct_cells(w, a, b, x as int, y as int);
                        lemma_cell_index(w, self.height as int, a, b);
                        assert(state@.tile(a, b) == before.tile(a, b));
                    }
                    assert forall|a: int| 0 <= a < x + 1 implies #[trigger] state@.tile(a, y as int)
                        == self@.occupancy(a, y as int, t as int) by {
                        lemma_cell_index(w, self.height as int, a, y as int);
                        if a < x {
                            lemma_distinct_cells(w, a, y as int, x as int, y as int);
                            assert(state@.tile(a, y as int) == before.tile(a, y as int));
                        }
                    }
                }
                x += 1;
            }
            y += 1;
        }
        state
    }
}

/// Two cells with different coordinates have different indices.
pub proof fn lemma_distinct_cells(w: int, x1: int, y1: int, x2: int, y2: int)
    requires
        0 <= x1 < w,
        0 <= x2 < w,
        0 <= y1,
        0 <= y2,
        x1 != x2 || y1 != y2,
    ensures
        y1 * w + x1 != y2 * w + x2,
{
    if y1 < y2 {
        assert(y1 * w + w <= y2 * w) by (nonlinear_arith)
            requires
                y1 < y2,
                0 < w,
        ;
    } else if y2 < y1 {
        assert(y2 * w + w <= y1 * w) by (nonlinear_arith)
            requires
                y2 < y1,
                0 < w,
        ;
    }
}

} // verus!
