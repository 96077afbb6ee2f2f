//! A cell of the grid at one minute.

use vstd::prelude::*;

verus! {

/// The cell in column `x` and row `y`, at minute `t`.
#[derive(Clone, Copy, Debug, PartialEq, Eq, Structural, Hash, PartialOrd, Ord)]
pub struct Point {
    pub x: usize,
    pub y: usize,
    pub t: usize,
}

impl Point {
    /// The same minute's neighbour, or the cell itself, one minute later.
    pub open spec fn shifted(self, dx: int, dy: int) -> Point {
        Point { x: (self.x + dx) as usize, y: (self.y + dy) as usize, t: (self.t + 1) as usize }
    }

    /// Where one may stand a minute later, in the order in which the search
    /// tries them: stay, then one column up, one row up, one column down, one
    /// row down; the last two only where the coordinate is not already 0.
    pub open spec fn candidates(self) -> Seq<Point> {
        seq![self.shifted(0, 0), self.shifted(1, 0), self.shifted(0, 1)] + (if self.x > 0 {
            seq![self.shifted(-1, 0)]
        } else {
            Seq::<Point>::empty()
        }) + (if self.y > 0 {
            seq![self.shifted(0, -1)]
        } else {
            Seq::<Point>::empty()
        })
    }

    /// Whether `next` is one of `self.candidates()`.
    pub open spec fn steps_to(self, next: Point) -> bool {
        &&& next.t == self.t + 1
        &&& {
            ||| next.x == self.x && next.y == self.y
            ||| next.x == self.x + 1 && next.y == self.y
            ||| next.x == self.x && next.y == self.y + 1
            ||| next.x == self.x - 1 && next.y == self.y
            ||| next.x == self.x && next.y == self.y - 1
        }
    }

    /// The Manhattan distance between the two cells; the minutes play no part.
    pub open spec fn manhattan(self, other: Point) -> nat {
        let dx: int = if self.x >= other.x { self.x - other.x } else { other.x - self.x };
        let dy: int = if self.y >= other.y { self.y - other.y } else { other.y - self.y };
        (dx + dy) as nat
    }

    /// The candidate moves of one minute, each at cost 1.
    pub fn moves(&self) -> (m: Vec<(Point, usize)>)
        requires
            self.x < usize::MAX,
            self.y < usize::MAX,
            self.t < usize::MAX,
        ensures
            m@ == self.candidates().map_values(|p: Point| (p, 1usize)),
    {
        let t: usize = self.t + 1;
        let mut m: Vec<(Point, usize)> = Vec::new();
        m.push((Point { x: self.x, y: self.y, t }, 1));
        m.push((Point { x: self.x + 1, y: self.y, t }, 1));
        m.push((Point { x: self.x, y: self.y + 1, t }, 1));
        if self.x > 0 {
            m.push((Point { x: self.x - 1, y: self.y, t }, 1));
        }
        if self.y > 0 {
            m.push((Point { x: self.x, y: self.y - 1, t }, 1));
        }
        assert(m@ =~= self.candidates().map_values(|p: Point| (p, 1usize)));
        m
    }

    /// The Manhattan distance to `other`.
    pub fn distance(&self, other: &Self) -> (d: usize)
        requires
            self.manhattan(*other) <= usize::MAX,
        ensures
            d == self.manhattan(*other),
    {
        let dx: usize = if self.x >= other.x { self.x - other.x } else { other.x - self.x };
        let dy: usize = if self.y >= other.y { self.y - other.y } else { other.y - self.y };
        dx + dy
    }
}

/// Every candidate is one step away, and every point one step away is a
/// candidate.
pub proof fn lemma_candidates_are_steps(p: Point, next: Point)
    requires
        p.x < usize::MAX,
        p.y < usize::MAX,
        p.t < usize::MAX,
    ensures
        p.candidates().contains(next) <==> p.steps_to(next),
{
    let c = p.candidates();
    if p.steps_to(next) {
        if next.x == p.x && next.y == p.y {
            assert(c[0] == next);
        } else if next.x == p.x + 1 {
            assert(c[1] == next);
        } else if next.y == p.y + 1 {
            assert(c[2] == next);
        } else if next.x == p.x - 1 {
            assert(c[3] == next);
        } else {
            assert(c[c.len() - 1] == next);
        }
    }
    if c.contains(next) {
        let i = choose|i: int| 0 <= i < c.len() && c[i] == next;
        assert(c[i] == next);
    }
}

} // verus!
