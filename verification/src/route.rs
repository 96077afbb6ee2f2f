//! Walks through the grid in space and time, and why the Manhattan distance
//! to the exit never overestimates what is left of one.

use vstd::prelude::*;

use crate::level::Grid;
use crate::point::{lemma_candidates_are_steps, Point};

verus! {

impl Grid {
    /// One minute of a walk: a step, or a wait, onto a cell of the grid that
    /// is free at the minute of arrival.
    pub open spec fn is_move(self, from: Point, to: Point) -> bool {
        from.steps_to(to) && self.admits(to)
    }

    /// A walk: it starts on the entry at minute 0 and goes on by moves.
    pub open spec fn is_walk(self, q: Seq<Point>) -> bool {
        &&& q.len() > 0
        &&& q[0] == self.enter
        &&& forall|i: int| 0 <= i < q.len() - 1 ==> #[trigger] self.is_move(q[i], q[i + 1])
    }

    /// A route: a walk that ends on the exit.
    pub open spec fn is_route(self, q: Seq<Point>) -> bool {
        self.is_walk(q) && self.at_exit(q.last())
    }
}

/// What the filter keeps of a point's candidates are the moves from it.
pub proof fn lemma_successors_are_moves(g: Grid, from: Point, to: Point)
    requires
        from.x < usize::MAX,
        from.y < usize::MAX,
        from.t < usize::MAX,
    ensures
        g.successors(from).contains(to) <==> g.is_move(from, to),
{
    let all = from.candidates();
    let keep = |q: Point| g.admits(q);
    lemma_candidates_are_steps(from, to);
    if g.successors(from).contains(to) {
        all.lemma_filter_contains_rev(keep, to);
        let k = choose|k: int| 0 <= k < all.filter(keep).len() && all.filter(keep)[k] == to;
        all.lemma_filter_pred(keep, k);
    }
    if g.is_move(from, to) {
        let i = choose|i: int| 0 <= i < all.len() && all[i] == to;
        all.lemma_filter_contains(keep, i);
    }
}

/// The points of a walk count the minutes: the point with index `i` is
/// reached at minute `i`; and all but the first lie in the grid.
pub proof fn lemma_walk_clock(g: Grid, q: Seq<Point>, i: int)
    requires
        g.wf(),
        g.is_walk(q),
        0 <= i < q.len(),
    ensures
        q[i].t == i,
        g.near(q[i]),
        i > 0 ==> g.admits(q[i]),
    decreases i,
{
    if i > 0 {
        lemma_walk_clock(g, q, i - 1);
        assert(g.is_move(q[i - 1], q[i - 1 + 1]));
    }
}

/// The Manhattan distance to the exit is 0 on the exit and nowhere else.
pub proof fn lemma_heuristic_is_zero_at_exit(g: Grid, p: Point)
    ensures
        g.at_exit(p) <==> p.manhattan(g.exit) == 0,
{
}

/// Consistency of the heuristic: one move, which costs 1, brings the
/// Manhattan distance to the exit down by 1 at most.
pub proof fn lemma_heuristic_is_consistent(g: Grid, from: Point, to: Point)
    requires
        g.is_move(from, to),
    ensures
        from.manhattan(g.exit) <= to.manhattan(g.exit) + 1,
{
}

/// Admissibility of the heuristic: from any point of a route, the Manhattan
/// distance to the exit is at most the number of moves that the route still
/// takes.
pub proof fn lemma_heuristic_is_admissible(g: Grid, q: Seq<Point>, i: int)
    requires
        g.is_route(q),
        0 <= i < q.len(),
    ensures
        q[i].manhattan(g.exit) <= q.len() - 1 - i,
    decreases q.len() - i,
{
    if i < q.len() - 1 {
        lemma_heuristic_is_admissible(g, q, i + 1);
        assert(g.is_move(q[i], q[i + 1]));
        lemma_heuristic_is_consistent(g, q[i], q[i + 1]);
    }
}

} // verus!
