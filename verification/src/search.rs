//! The search for a quickest route: A* over points in space and time.

use pathfinding::directed::astar::astar;
use vstd::prelude::*;

use crate::bound::lemma_route_within_states;
use crate::level::{Grid, Level};
use crate::point::Point;
use crate::route::{lemma_successors_are_moves, lemma_walk_clock};

verus! {

impl Grid {
    /// The most moves that a search may look ahead without its sums of a cost
    /// and a distance leaving the machine's words.
    pub open spec fn step_limit(self) -> int {
        usize::MAX - self.width * self.height
    }

    /// How many moves the search looks ahead: as many as there are pairs of a
    /// cell and a phase, which is enough to find a route if there is one, or
    /// as many as the step limit allows if that is fewer.
    pub open spec fn horizon(self) -> int {
        if self.states() <= self.step_limit() {
            self.states() as int
        } else {
            self.step_limit()
        }
    }

    /// The edges that leave a point in the graph that is searched: to each
    /// successor at cost 1, and none from the horizon on.
    pub open spec fn expansion(self, p: Point, horizon: int) -> Seq<(Point, usize)> {
        if p.t < horizon {
            self.successors(p).map_values(|q: Point| (q, 1usize))
        } else {
            Seq::<(Point, usize)>::empty()
        }
    }

    /// A path of that graph from the entry to the exit.
    pub open spec fn is_trail(self, q: Seq<Point>, horizon: int) -> bool {
        &&& q.len() > 0
        &&& q[0] == self.enter
        &&& forall|i: int|
            0 <= i < q.len() - 1 ==> #[trigger] self.expansion(q[i], horizon).contains(
                (q[i + 1], 1usize),
            )
        &&& self.at_exit(q.last())
    }
}

/// An edge of the searched graph ends on a cell that is free on arrival.
proof fn lemma_edge_ends_free(g: Grid, from: Point, to: Point, horizon: int)
    requires
        g.expansion(from, horizon).contains((to, 1usize)),
    ensures
        from.t < horizon,
        g.successors(from).contains(to),
        g.admits(to),
{
    let next = g.successors(from);
    let edges = g.expansion(from, horizon);
    let k = choose|k: int| 0 <= k < edges.len() && edges[k] == (to, 1usize);
    assert(next[k] == to);
    from.candidates().lemma_filter_pred(|q: Point| g.admits(q), k);
}

/// The edges of the searched graph are the moves that start before the
/// horizon.
proof fn lemma_edges_are_moves(g: Grid, from: Point, to: Point, horizon: int)
    requires
        from.x < usize::MAX,
        from.y < usize::MAX,
        horizon <= usize::MAX,
    ensures
        g.expansion(from, horizon).contains((to, 1usize)) <==> from.t < horizon && g.is_move(
            from,
            to,
        ),
{
    if from.t < horizon {
        lemma_successors_are_moves(g, from, to);
        let next = g.successors(from);
        let edges = g.expansion(from, horizon);
        if edges.contains((to, 1usize)) {
            lemma_edge_ends_free(g, from, to, horizon);
        }
        if g.is_move(from, to) {
            let k = choose|k: int| 0 <= k < next.len() && next[k] == to;
            assert(edges[k] == (to, 1usize));
        }
    }
}

/// A path of the searched graph is a route of at most `horizon` moves.
proof fn lemma_trail_is_route(g: Grid, q: Seq<Point>, horizon: int)
    requires
        g.wf(),
        g.width <= usize::MAX,
        g.height <= usize::MAX,
        0 <= horizon <= usize::MAX,
        g.is_trail(q, horizon),
    ensures
        g.is_route(q),
        q.len() - 1 <= horizon,
{
    assert forall|i: int| 0 <= i < q.len() - 1 implies #[trigger] g.is_move(q[i], q[i + 1]) by {
        assert(g.expansion(q[i], horizon).contains((q[i + 1], 1usize)));
        if i > 0 {
            assert(g.expansion(q[i - 1], horizon).contains((q[i - 1 + 1], 1usize)));
            lemma_edge_ends_free(g, q[i - 1], q[i], horizon);
        }
        lemma_edges_are_moves(g, q[i], q[i + 1], horizon);
    }
    if q.len() >= 2 {
        let last = q.len() - 2;
        lemma_walk_clock(g, q, last);
        assert(g.expansion(q[last], horizon).contains((q[last + 1], 1usize)));
        lemma_edge_ends_free(g, q[last], q[last + 1], horizon);
    }
}

/// A route of at most `horizon` moves is a path of the searched graph.
proof fn lemma_route_is_trail(g: Grid, q: Seq<Point>, horizon: int)
    requires
        g.wf(),
        g.width <= usize::MAX,
        g.height <= usize::MAX,
        horizon <= usize::MAX,
        g.is_route(q),
        q.len() - 1 <= horizon,
    ensures
        g.is_trail(q, horizon),
{
    assert forall|i: int| 0 <= i < q.len() - 1 implies #[trigger] g.expansion(
        q[i],
        horizon,
    ).contains((q[i + 1], 1usize)) by {
        lemma_walk_clock(g, q, i);
        assert(g.is_move(q[i], q[i + 1]));
        lemma_edges_are_moves(g, q[i], q[i + 1], horizon);
    }
}

/// Two points that are cells of the grid, or lie at the origin, are less than
/// a machine word apart; and fewer steps apart than the grid has cells, where
/// it has any.
proof fn lemma_near_points_are_close(g: Grid, a: Point, b: Point)
    requires
        g.near(a),
        g.near(b),
        g.width <= usize::MAX,
        g.height <= usize::MAX,
        g.width * g.height <= usize::MAX,
    ensures
        a.manhattan(b) <= usize::MAX,
        g.width > 0 && g.height > 0 ==> a.manhattan(b) < g.width * g.height,
{
    let w = g.width as int;
    let h = g.height as int;
    if w > 0 && h > 0 {
        assert(w + h - 1 <= w * h) by (nonlinear_arith)
            requires
                w > 0,
                h > 0,
        ;
    }
}

/// `pathfinding::directed::astar::astar`, run from `start` with
/// `Level::expand` for the successors, `Level::heuristic` for the estimate
/// and `Level::is_exit_point` for the goal. The contract takes from the
/// crate's documentation that the result is a shortest path of that graph
/// from `start` to a goal, together with its cost, and `None` where the graph
/// has no such path. With every edge at cost 1, the cost is the number of
/// edges. Not proved here: that A* is correct. It is owed a finite graph,
/// which the horizon gives, and an estimate that never exceeds the true
/// remaining cost, which `lemma_heuristic_is_admissible` shows. A* applies
/// the three functions to `start` and to points that `expand` has returned,
/// all of which `near` holds of, and adds a cost of at most `horizon` to the
/// estimate for a cell of the grid, which is less than the number of cells.
#[verifier::external_body]
fn astar_search(level: &Level, start: &Point, horizon: usize) -> (found: Option<
    (Vec<Point>, usize),
>)
    requires
        level.wf(),
        *start == level@.enter,
        horizon + level@.width * level@.height <= usize::MAX,
    ensures
        (match found {
            Some((path, cost)) => {
                &&& level@.is_trail(path@, horizon as int)
                &&& cost == path@.len() - 1
                &&& forall|q: Seq<Point>| #[trigger]
                    level@.is_trail(q, horizon as int) ==> cost <= q.len() - 1
            },
            None => forall|q: Seq<Point>| !#[trigger] level@.is_trail(q, horizon as int),
        }),
{
    astar(start, |p| level.expand(p, horizon), |p| level.heuristic(p), |p| level.is_exit_point(p))
}

impl Level {
    /// The edges that leave `point` in the graph that is searched.
    pub fn expand(&self, point: &Point, horizon: usize) -> (edges: Vec<(Point, usize)>)
        requires
            self.wf(),
            self@.near(*point),
        ensures
            edges@ == self@.expansion(*point, horizon as int),
    {
        if point.t < horizon {
            self.successors(point)
        } else {
            Vec::new()
        }
    }

    /// The estimate of what is left of a route from `point`: the Manhattan
    /// distance to the exit.
    pub fn heuristic(&self, point: &Point) -> (h: usize)
        requires
            self.wf(),
            self@.near(*point),
        ensures
            h == self@.exit.manhattan(*point),
            self@.in_bounds(point.x as int, point.y as int) ==> h < self@.width * self@.height,
    {
        proof {
            lemma_near_points_are_close(self@, self@.exit, *point);
        }
        self.exit().distance(point)
    }

    /// How many moves `solve` looks ahead.
    pub fn horizon(&self) -> (h: usize)
        requires
            self.wf(),
        ensures
            h == self@.horizon(),
            h + self@.width * self@.height <= usize::MAX,
    {
        let cells: usize = self.width() * self.height();
        let limit: usize = usize::MAX - cells;
        let period: usize = self.period();
        match cells.checked_mul(period) {
            Some(states) => if states <= limit {
                states
            } else {
                limit
            },
            None => limit,
        }
    }

    /// A quickest route from the entry at minute 0 to the exit, with the
    /// number of its moves, or `None` where the search finds no route.
    ///
    /// The search looks `horizon()` moves ahead. A route that is found is
    /// quickest among all routes, however long. Where none is found, there is
    /// none of at most `horizon()` moves; and unless the step limit has cut
    /// the horizon short, there is none at all.
    pub fn solve(&self) -> (found: Option<(Vec<Point>, usize)>)
        requires
            self.wf(),
        ensures
            (match found {
                Some((path, cost)) => {
                    &&& self@.is_route(path@)
                    &&& cost == path@.len() - 1
                    &&& cost <= self@.horizon()
                    &&& forall|q: Seq<Point>| #[trigger] self@.is_route(q) ==> cost <= q.len() - 1
                },
                None => {
                    &&& forall|q: Seq<Point>| #[trigger]
                        self@.is_route(q) ==> q.len() - 1 > self@.horizon()
                    &&& self@.states() <= self@.step_limit() ==> forall|q: Seq<Point>|
                        !#[trigger] self@.is_route(q)
                },
            }),
    {
        let horizon: usize = self.horizon();
        let start: Point = self.enter();
        let found = astar_search(self, &start, horizon);
        let ghost outcome = found;
        proof {
            let g = self@;
            let h = horizon as int;
            assert forall|q: Seq<Point>| #[trigger] g.is_route(q) && q.len() - 1 <= h implies g.is_trail(
                q,
                h,
            ) by {
                lemma_route_is_trail(g, q, h);
            }
            match outcome {
                Some((path, cost)) => {
                    lemma_trail_is_route(g, path@, h);
                },
                None => {
                    if g.states() <= g.step_limit() {
                        assert forall|q: Seq<Point>| !#[trigger] g.is_route(q) by {
                            if g.is_route(q) {
                                lemma_route_within_states(g, q);
                                let r = choose|r: Seq<Point>| #[trigger]
                                    g.is_route(r) && r.len() - 1 <= g.states();
                                assert(g.is_trail(r, h));
                            }
                        }
                    }
                },
            }
        }
        found
    }
}

} // verus!
