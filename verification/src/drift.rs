//! The blizzards followed minute by minute, and the proof that the analytic
//! occupancy of a cell is what this simulation gives.

use vstd::arithmetic::div_mod::{
    lemma_fundamental_div_mod,
    lemma_fundamental_div_mod_converse,
    lemma_mod_bound,
    lemma_mod_equivalence,
    lemma_mod_multiples_basic,
};
use vstd::prelude::*;

use crate::level::Grid;
use crate::tiles::{ObstacleType, COLLIDES_FLAG, EAST_FLAG, NORTH_FLAG, SOUTH_FLAG, WEST_FLAG};

verus! {

impl Grid {
    /// Where a blizzard of the given kind that stands on the interior cell
    /// `(x, y)` stands one minute later: one cell further in its direction,
    /// or on the far side of the interior where it would leave it.
    pub open spec fn drift(self, kind: ObstacleType, x: int, y: int) -> (int, int) {
        match kind {
            ObstacleType::North => (
                x,
                if y == 1 {
                    self.height - 2
                } else {
                    y - 1
                },
            ),
            ObstacleType::South => (
                x,
                if y == self.height - 2 {
                    1
                } else {
                    y + 1
                },
            ),
            ObstacleType::East => (
                if x == self.width - 2 {
                    1
                } else {
                    x + 1
                },
                y,
            ),
            ObstacleType::West => (
                if x == 1 {
                    self.width - 2
                } else {
                    x - 1
                },
                y,
            ),
            _ => (x, y),
        }
    }

    /// Where that blizzard stands after `t` minutes, one step at a time.
    pub open spec fn drifted(self, kind: ObstacleType, x: int, y: int, t: nat) -> (int, int)
        decreases t,
    {
        if t == 0 {
            (x, y)
        } else {
            let before = self.drifted(kind, x, y, (t - 1) as nat);
            self.drift(kind, before.0, before.1)
        }
    }

    /// Whether a blizzard of the given kind stands on `(x, y)` after `t`
    /// minutes of simulation: one that the layout of minute 0 shows on some
    /// interior cell has drifted there.
    pub open spec fn simulated(self, kind: ObstacleType, x: int, y: int, t: nat) -> bool {
        exists|x0: int, y0: int|
            self.interior(x0, y0) && self.tile(x0, y0) & kind.heading() != 0
                && #[trigger] self.drifted(kind, x0, y0, t) == (x, y)
    }
}

/// One step up or down changes a remainder by one, wrapping at the ends.
proof fn lemma_mod_step(a: int, m: int)
    requires
        0 < m,
    ensures
        (a + 1) % m == (if a % m == m - 1 {
            0
        } else {
            a % m + 1
        }),
        (a - 1) % m == (if a % m == 0 {
            m - 1
        } else {
            a % m - 1
        }),
{
    lemma_fundamental_div_mod(a, m);
    lemma_mod_bound(a, m);
    let q = a / m;
    let r = a % m;
    assert(m * q == q * m && (q + 1) * m == q * m + m && (q - 1) * m == q * m - m)
        by (nonlinear_arith);
    if r == m - 1 {
        lemma_fundamental_div_mod_converse(a + 1, m, q + 1, 0);
    } else {
        lemma_fundamental_div_mod_converse(a + 1, m, q, r + 1);
    }
    if r == 0 {
        lemma_fundamental_div_mod_converse(a - 1, m, q - 1, m - 1);
    } else {
        lemma_fundamental_div_mod_converse(a - 1, m, q, r - 1);
    }
}

/// Going `t` one way and `t` back leaves the remainder where it was.
proof fn lemma_undo_shift(a: int, t: int, m: int)
    requires
        0 < m,
    ensures
        ((a - t) % m + t) % m == a % m,
        ((a + t) % m - t) % m == a % m,
{
    lemma_fundamental_div_mod(a - t, m);
    lemma_fundamental_div_mod(a + t, m);
    let down = (a - t) / m;
    let up = (a + t) / m;
    lemma_mod_multiples_basic(-down, m);
    lemma_mod_multiples_basic(-up, m);
    assert((-down) * m == -(m * down) && (-up) * m == -(m * up)) by (nonlinear_arith);
    lemma_mod_equivalence((a - t) % m + t, a, m);
    lemma_mod_equivalence((a + t) % m - t, a, m);
}

/// A remainder that is already in range is the number itself.
proof fn lemma_in_range(a: int, m: int)
    requires
        0 <= a < m,
    ensures
        a % m == a,
{
    lemma_fundamental_div_mod_converse(a, m, 0, a);
}

/// The closed form of the simulation: after `t` single steps a blizzard that
/// began on an interior cell stands `t` cells further in its direction, modulo
/// the interior's extent in that direction.
pub proof fn lemma_drifted_closed_form(g: Grid, kind: ObstacleType, x: int, y: int, t: nat)
    requires
        g.interior(x, y),
    ensures
        g.drifted(kind, x, y, t) == (match kind {
            ObstacleType::North => (x, 1 + (y - 1 - t) % g.inner_height()),
            ObstacleType::South => (x, 1 + (y - 1 + t) % g.inner_height()),
            ObstacleType::East => (1 + (x - 1 + t) % g.inner_width(), y),
            ObstacleType::West => (1 + (x - 1 - t) % g.inner_width(), y),
            _ => (x, y),
        }),
    decreases t,
{
    let iw = g.inner_width();
    let ih = g.inner_height();
    if t == 0 {
        lemma_in_range(x - 1, iw);
        lemma_in_range(y - 1, ih);
    } else {
        lemma_drifted_closed_form(g, kind, x, y, (t - 1) as nat);
        lemma_mod_step(y - 1 - t, ih);
        lemma_mod_step(y - 1 + (t - 1), ih);
        lemma_mod_step(x - 1 + (t - 1), iw);
        lemma_mod_step(x - 1 - t, iw);
        lemma_mod_bound(y - 1 - t, ih);
        lemma_mod_bound(y - 1 + t, ih);
        lemma_mod_bound(x - 1 + t, iw);
        lemma_mod_bound(x - 1 - t, iw);
    }
}

/// Which bits of the four masked look-ups survive in the flags of a cell.
proof fn lemma_masked_bits(n: u8, e: u8, s: u8, w: u8)
    by (bit_vector)
    ensures
        ({
            let m = (n & 0x01u8) | (e & 0x02u8) | (s & 0x04u8) | (w & 0x08u8);
            let o = if m != 0u8 {
                m | 0x80u8
            } else {
                0u8
            };
            &&& (o & 0x01u8 != 0u8) == (n & 0x01u8 != 0u8)
            &&& (o & 0x02u8 != 0u8) == (e & 0x02u8 != 0u8)
            &&& (o & 0x04u8 != 0u8) == (s & 0x04u8 != 0u8)
            &&& (o & 0x08u8 != 0u8) == (w & 0x08u8 != 0u8)
            &&& (o & 0x80u8 == 0x80u8) == (n & 0x01u8 != 0u8 || e & 0x02u8 != 0u8 || s & 0x04u8
                != 0u8 || w & 0x08u8 != 0u8)
        }),
{
}

/// The cell from which a blizzard of the given kind reaches `(x, y)` in `t`
/// minutes.
pub open spec fn origin_of(g: Grid, kind: ObstacleType, x: int, y: int, t: int) -> (int, int) {
    match kind {
        ObstacleType::North => (x, g.north_origin(y, t)),
        ObstacleType::South => (x, g.south_origin(y, t)),
        ObstacleType::East => (g.east_origin(x, t), y),
        ObstacleType::West => (g.west_origin(x, t), y),
        _ => (x, y),
    }
}

/// The cell that the analytic formula looks up lies in the interior.
pub proof fn lemma_origin_is_interior(g: Grid, kind: ObstacleType, x: int, y: int, t: int)
    requires
        g.interior(x, y),
    ensures
        g.interior(origin_of(g, kind, x, y, t).0, origin_of(g, kind, x, y, t).1),
{
    lemma_mod_bound(y - 1 + t, g.inner_height());
    lemma_mod_bound(y - 1 - t, g.inner_height());
    lemma_mod_bound(x - 1 + t, g.inner_width());
    lemma_mod_bound(x - 1 - t, g.inner_width());
}

/// The cell that the analytic formula looks up is the one, and the only one,
/// from which the simulation reaches `(x, y)` in `t` minutes.
pub proof fn lemma_origin_is_inverse(
    g: Grid,
    kind: ObstacleType,
    x: int,
    y: int,
    x0: int,
    y0: int,
    t: nat,
)
    requires
        g.interior(x, y),
        g.interior(x0, y0),
        kind.is_mover(),
    ensures
        g.drifted(kind, x0, y0, t) == (x, y) <==> origin_of(g, kind, x, y, t as int) == (x0, y0),
{
    let iw = g.inner_width();
    let ih = g.inner_height();
    lemma_drifted_closed_form(g, kind, x0, y0, t);
    lemma_mod_bound(y - 1 + t, ih);
    lemma_mod_bound(y - 1 - t, ih);
    lemma_mod_bound(x - 1 + t, iw);
    lemma_mod_bound(x - 1 - t, iw);
    lemma_undo_shift(y - 1, t as int, ih);
    lemma_undo_shift(x - 1, t as int, iw);
    lemma_undo_shift(y0 - 1, t as int, ih);
    lemma_undo_shift(x0 - 1, t as int, iw);
    lemma_in_range(x - 1, iw);
    lemma_in_range(y - 1, ih);
    lemma_in_range(x0 - 1, iw);
    lemma_in_range(y0 - 1, ih);
}

/// The analytic occupancy agrees with the simulation. For an interior cell,
/// any minute and each of the four kinds of blizzard, the cell's flags carry
/// the kind's direction bit exactly if stepping the blizzards of minute 0
/// forward one minute at a time puts one of that kind on the cell; and they
/// carry the collision bit exactly if they carry a direction bit.
pub proof fn lemma_occupancy_is_simulation(g: Grid, kind: ObstacleType, x: int, y: int, t: nat)
    requires
        g.interior(x, y),
        kind.is_mover(),
    ensures
        (g.occupancy(x, y, t as int) & kind.heading() != 0) == g.simulated(kind, x, y, t),
        !g.passable(x, y, t as int) == (g.occupancy(x, y, t as int) & (NORTH_FLAG | EAST_FLAG
            | SOUTH_FLAG | WEST_FLAG) != 0),
{
    let ti = t as int;
    let n = g.tile(x, g.north_origin(y, ti));
    let e = g.tile(g.east_origin(x, ti), y);
    let s = g.tile(x, g.south_origin(y, ti));
    let w = g.tile(g.west_origin(x, ti), y);
    lemma_masked_bits(n, e, s, w);
    let o = g.occupancy(x, y, ti);
    assert((o & COLLIDES_FLAG != COLLIDES_FLAG) == (o & (NORTH_FLAG | EAST_FLAG | SOUTH_FLAG
        | WEST_FLAG) == 0u8)) by (bit_vector)
        requires
            (o & COLLIDES_FLAG == COLLIDES_FLAG) == (o & NORTH_FLAG != 0u8 || o & EAST_FLAG != 0u8
                || o & SOUTH_FLAG != 0u8 || o & WEST_FLAG != 0u8),
    ;
    let src = origin_of(g, kind, x, y, ti);
    lemma_origin_is_interior(g, kind, x, y, ti);
    lemma_origin_is_inverse(g, kind, x, y, src.0, src.1, t);
    let here = g.occupancy(x, y, ti) & kind.heading() != 0;
    assert(here == (g.tile(src.0, src.1) & kind.heading() != 0));
    if here {
        assert(g.drifted(kind, src.0, src.1, t) == (x, y));
    }
    if g.simulated(kind, x, y, t) {
        let (x0, y0) = choose|x0: int, y0: int|
            g.interior(x0, y0) && g.tile(x0, y0) & kind.heading() != 0 && #[trigger] g.drifted(
                kind,
                x0,
                y0,
                t,
            ) == (x, y);
        lemma_origin_is_inverse(g, kind, x, y, x0, y0, t);
    }
}

} // verus!
