//! How long a quickest route can be: no longer than there are pairs of a cell
//! and a phase of the blizzards' period.

use vstd::arithmetic::div_mod::{lemma_fundamental_div_mod_converse, lemma_mod_bound, lemma_mod_equivalence};
use vstd::prelude::*;
use vstd::set_lib::{lemma_int_range, lemma_len_subset, set_int_range};

use crate::cycle::{lemma_occupancy_repeats, lemma_period_multiple_repeats, lemma_period_repeats};
use crate::level::{lemma_cell_index, Grid};
use crate::point::Point;
use crate::route::lemma_walk_clock;

verus! {

/// Among more than `n` numbers, none of them negative and all below `n`, two
/// are equal.
pub proof fn lemma_pigeonhole(s: Seq<int>, n: nat)
    requires
        s.len() > n,
        forall|i: int| 0 <= i < s.len() ==> 0 <= #[trigger] s[i] < n,
    ensures
        exists|i: int, j: int| 0 <= i < j < s.len() && s[i] == s[j],
{
    if s.no_duplicates() {
        let below = set_int_range(0, n as int);
        s.unique_seq_to_set();
        lemma_int_range(0, n as int);
        assert forall|v: int| s.to_set().contains(v) implies below.contains(v) by {
            let k = choose|k: int| 0 <= k < s.len() && s[k] == v;
            assert(0 <= s[k] < n);
        }
        lemma_len_subset(s.to_set(), below);
        assert(false);
    } else {
        let (i, j) = choose|i: int, j: int|
            0 <= i < s.len() && 0 <= j < s.len() && i != j && s[i] == s[j];
        if i < j {
            assert(s[i] == s[j]);
        } else {
            assert(s[j] == s[i]);
        }
    }
}

impl Grid {
    /// The number of pairs of a cell and a phase of the period.
    pub open spec fn states(self) -> nat {
        self.width * self.height * self.period()
    }

    /// A number for the cell of a point and the phase of its minute.
    pub open spec fn state_key(self, p: Point) -> int {
        (p.y * self.width + p.x) * self.period() + p.t as int % self.period() as int
    }
}

/// The key of a point in the grid is a number below `states()`.
proof fn lemma_state_key_in_range(g: Grid, p: Point)
    requires
        g.in_bounds(p.x as int, p.y as int),
    ensures
        0 <= g.state_key(p) < g.states(),
{
    lemma_period_repeats(g);
    let period = g.period() as int;
    let cell = p.y * g.width + p.x;
    let cells = g.width * g.height;
    lemma_cell_index(g.width as int, g.height as int, p.x as int, p.y as int);
    lemma_mod_bound(p.t as int, period);
    assert(0 <= cell * period && cell * period + period <= cells * period) by (nonlinear_arith)
        requires
            0 <= cell < cells,
            0 < period,
    ;
}

/// Two points of the grid with the same key stand on the same cell, a whole
/// number of periods apart.
proof fn lemma_state_key_is_injective(g: Grid, a: Point, b: Point)
    requires
        g.in_bounds(a.x as int, a.y as int),
        g.in_bounds(b.x as int, b.y as int),
        g.state_key(a) == g.state_key(b),
    ensures
        a.x == b.x,
        a.y == b.y,
        (a.t - b.t) % (g.period() as int) == 0,
{
    lemma_period_repeats(g);
    let period = g.period() as int;
    let w = g.width as int;
    let cell_a = a.y * w + a.x;
    let cell_b = b.y * w + b.x;
    lemma_mod_bound(a.t as int, period);
    lemma_mod_bound(b.t as int, period);
    lemma_fundamental_div_mod_converse(g.state_key(a), period, cell_a, a.t as int % period);
    lemma_fundamental_div_mod_converse(g.state_key(b), period, cell_b, b.t as int % period);
    lemma_fundamental_div_mod_converse(cell_a, w, a.y as int, a.x as int);
    lemma_fundamental_div_mod_converse(cell_b, w, b.y as int, b.x as int);
    lemma_mod_equivalence(a.t as int, b.t as int, period);
}

/// The same cell, `d` minutes earlier.
pub open spec fn rewound(p: Point, d: int) -> Point {
    Point { x: p.x, y: p.y, t: (p.t - d) as usize }
}

/// The walk `q` without what lies between its points `i` and `j`: it goes on
/// from point `i` as `q` does from point `j`, only earlier.
pub open spec fn shortcut(q: Seq<Point>, i: int, j: int) -> Seq<Point> {
    q.subrange(0, i + 1) + Seq::new((q.len() - 1 - j) as nat, |k: int| rewound(q[j + 1 + k], j - i))
}

/// Where a route comes by the same cell twice, at two minutes between which
/// the blizzards have cycled, what lies between can be left out.
pub proof fn lemma_shortcut_is_route(g: Grid, q: Seq<Point>, i: int, j: int)
    requires
        g.wf(),
        g.is_route(q),
        0 <= i < j < q.len(),
        q[i].x == q[j].x,
        q[i].y == q[j].y,
        g.repeats_after(j - i),
    ensures
        g.is_route(shortcut(q, i, j)),
        shortcut(q, i, j).len() == q.len() - (j - i),
{
    let s = shortcut(q, i, j);
    let d = j - i;
    lemma_walk_clock(g, q, i);
    lemma_walk_clock(g, q, j);
    assert forall|m: int| 0 <= m < s.len() - 1 implies #[trigger] g.is_move(s[m], s[m + 1]) by {
        if m < i {
            assert(g.is_move(q[m], q[m + 1]));
        } else {
            let from = j + (m - i);
            lemma_walk_clock(g, q, from);
            lemma_walk_clock(g, q, from + 1);
            assert(g.is_move(q[from], q[from + 1]));
            let to = q[from + 1];
            lemma_occupancy_repeats(g, to.x as int, to.y as int, to.t as int, d);
            assert(s[m + 1] == rewound(to, d));
            if m > i {
                assert(s[m] == rewound(q[from], d));
            }
        }
    }
    if j == q.len() - 1 {
        assert(s.last() == q[i]);
    } else {
        assert(s.last() == rewound(q.last(), d));
    }
}

/// Where the grid has a route at all, it has one of at most `states()` moves:
/// a longer one comes by some cell twice at the same phase of the period.
pub proof fn lemma_route_within_states(g: Grid, q: Seq<Point>)
    requires
        g.wf(),
        g.is_route(q),
    ensures
        exists|r: Seq<Point>| #[trigger] g.is_route(r) && r.len() - 1 <= g.states(),
    decreases q.len(),
{
    let n = g.states();
    if q.len() - 1 <= n {
        assert(g.is_route(q));
    } else {
        let keys = Seq::new(n + 1, |k: int| g.state_key(q[k + 1]));
        assert forall|k: int| 0 <= k < keys.len() implies 0 <= #[trigger] keys[k] < n by {
            lemma_walk_clock(g, q, k + 1);
            lemma_state_key_in_range(g, q[k + 1]);
        }
        lemma_pigeonhole(keys, n);
        let (a, b) = choose|a: int, b: int| 0 <= a < b < keys.len() && keys[a] == keys[b];
        let i = a + 1;
        let j = b + 1;
        lemma_walk_clock(g, q, i);
        lemma_walk_clock(g, q, j);
        lemma_state_key_is_injective(g, q[j], q[i]);
        lemma_period_multiple_repeats(g, j - i);
        lemma_shortcut_is_route(g, q, i, j);
        lemma_route_within_states(g, shortcut(q, i, j));
    }
}

} // verus!
