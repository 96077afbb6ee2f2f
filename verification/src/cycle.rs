//! The period of the blizzards: after the least common multiple of the
//! interior's two dimensions every blizzard is back where it began.

use vstd::arithmetic::div_mod::{
    lemma_fundamental_div_mod,
    lemma_fundamental_div_mod_converse,
    lemma_mod_multiples_basic,
    lemma_mod_multiples_vanish,
};
use vstd::prelude::*;

use crate::level::{Grid, Level};

verus! {

/// The greatest common divisor, by Euclid's recursion.
pub open spec fn gcd(a: nat, b: nat) -> nat
    decreases b,
{
    if b == 0 {
        a
    } else {
        gcd(b, a % b)
    }
}

/// The least common multiple of two positive numbers.
pub open spec fn lcm(a: nat, b: nat) -> nat {
    a * b / gcd(a, b)
}

/// A multiple of a multiple of `m` is a multiple of `m`.
pub proof fn lemma_multiple_of_multiple(d: int, p: int, m: int)
    requires
        0 < m,
        0 < p,
        p % m == 0,
        d % p == 0,
    ensures
        d % m == 0,
{
    lemma_fundamental_div_mod(d, p);
    lemma_fundamental_div_mod(p, m);
    let k = (p / m) * (d / p);
    assert(d == k * m) by (nonlinear_arith)
        requires
            d == p * (d / p),
            p == m * (p / m),
            k == (p / m) * (d / p),
    ;
    lemma_mod_multiples_basic(k, m);
}

/// A sum of two multiples of `m` is a multiple of `m`.
proof fn lemma_sum_of_multiples(a: int, b: int, m: int)
    requires
        0 < m,
        a % m == 0,
        b % m == 0,
    ensures
        (a + b) % m == 0,
{
    lemma_fundamental_div_mod(a, m);
    lemma_fundamental_div_mod(b, m);
    let k = a / m + b / m;
    assert(a + b == k * m) by (nonlinear_arith)
        requires
            a == m * (a / m),
            b == m * (b / m),
            k == a / m + b / m,
    ;
    lemma_mod_multiples_basic(k, m);
}

/// The greatest common divisor of two numbers, one of them positive, is
/// positive and divides both.
pub proof fn lemma_gcd_divides(a: nat, b: nat)
    requires
        a > 0 || b > 0,
    ensures
        gcd(a, b) > 0,
        a % gcd(a, b) == 0,
        b % gcd(a, b) == 0,
    decreases b,
{
    if b == 0 {
        lemma_mod_multiples_basic(1, a as int);
        lemma_mod_multiples_basic(0, a as int);
    } else {
        let r = a % b;
        lemma_gcd_divides(b, r);
        let g = gcd(b, r) as int;
        lemma_fundamental_div_mod(a as int, b as int);
        let whole: int = b as int * (a as int / b as int);
        lemma_mod_multiples_basic(a as int / b as int, b as int);
        assert(whole == (a as int / b as int) * b) by (nonlinear_arith)
            requires
                whole == b as int * (a as int / b as int),
        ;
        lemma_multiple_of_multiple(whole, b as int, g);
        lemma_sum_of_multiples(whole, r as int, g);
    }
}

/// The least common multiple of two positive numbers is positive, is a
/// multiple of both, and is `a / gcd(a, b)` times `b`.
pub proof fn lemma_lcm_is_common_multiple(a: nat, b: nat)
    requires
        a > 0,
        b > 0,
    ensures
        lcm(a, b) > 0,
        lcm(a, b) % a == 0,
        lcm(a, b) % b == 0,
        lcm(a, b) == (a / gcd(a, b)) * b,
        lcm(a, b) <= a * b,
{
    lemma_gcd_divides(a, b);
    let g = gcd(a, b) as int;
    let ai = a as int;
    let bi = b as int;
    let ka = ai / g;
    let kb = bi / g;
    lemma_fundamental_div_mod(ai, g);
    lemma_fundamental_div_mod(bi, g);
    assert(ai * bi == g * (ai * kb) && ai * kb == ka * bi && ai * kb == kb * ai && 0 < ka && 0 < kb
        && ai * kb <= ai * bi && 0 < ai * kb) by (nonlinear_arith)
        requires
            ai == g * ka,
            bi == g * kb,
            0 < g,
            0 < ai,
            0 < bi,
    ;
    lemma_fundamental_div_mod_converse(ai * bi, g, ai * kb, 0);
    assert(lcm(a, b) == ai * kb);
    lemma_mod_multiples_basic(kb, ai);
    lemma_mod_multiples_basic(ka, bi);
}

/// The greatest common divisor is a combination of the two numbers with
/// whole coefficients, which are returned.
pub proof fn lemma_gcd_is_combination(a: nat, b: nat) -> (c: (int, int))
    ensures
        gcd(a, b) == c.0 * a + c.1 * b,
    decreases b,
{
    if b == 0 {
        (1, 0)
    } else {
        let r = a % b;
        let (x, y) = lemma_gcd_is_combination(b, r);
        let q = a as int / b as int;
        lemma_fundamental_div_mod(a as int, b as int);
        assert(x * b + y * r == y * a + (x - y * q) * b) by (nonlinear_arith)
            requires
                a == b * q + r,
        ;
        (y, x - y * q)
    }
}

/// No positive common multiple of two positive numbers is smaller than their
/// least common multiple, and each is a multiple of it.
pub proof fn lemma_lcm_is_least(a: nat, b: nat, m: nat)
    requires
        a > 0,
        b > 0,
        m > 0,
        m % a == 0,
        m % b == 0,
    ensures
        lcm(a, b) <= m,
        m % lcm(a, b) == 0,
{
    lemma_lcm_is_common_multiple(a, b);
    lemma_gcd_divides(a, b);
    let g = gcd(a, b) as int;
    let l = lcm(a, b) as int;
    let (x, y) = lemma_gcd_is_combination(a, b);
    let ai = a as int;
    let bi = b as int;
    let mi = m as int;
    let s = mi / ai;
    let t = mi / bi;
    let ka = ai / g;
    lemma_fundamental_div_mod(mi, ai);
    lemma_fundamental_div_mod(mi, bi);
    lemma_fundamental_div_mod(ai, g);
    let k = x * t + y * s;
    let ab = ai * bi;
    let am = ai * mi;
    let bm = bi * mi;
    assert(ab == g * l) by (nonlinear_arith)
        requires
            ai == g * ka,
            l == ka * bi,
            ab == ai * bi,
    ;
    assert(am == ab * t) by (nonlinear_arith)
        requires
            mi == bi * t,
            ab == ai * bi,
            am == ai * mi,
    ;
    assert(bm == ab * s) by (nonlinear_arith)
        requires
            mi == ai * s,
            ab == ai * bi,
            bm == bi * mi,
    ;
    assert(mi * g == x * am + y * bm) by (nonlinear_arith)
        requires
            g == x * ai + y * bi,
            am == ai * mi,
            bm == bi * mi,
    ;
    assert(x * am + y * bm == ab * k) by (nonlinear_arith)
        requires
            am == ab * t,
            bm == ab * s,
            k == x * t + y * s,
    ;
    assert(ab * k == g * (l * k)) by (nonlinear_arith)
        requires
            ab == g * l,
    ;
    assert(mi == l * k && k >= 1 && l <= mi && mi == k * l) by (nonlinear_arith)
        requires
            mi * g == g * (l * k),
            g > 0,
            mi > 0,
            l > 0,
    ;
    lemma_mod_multiples_basic(k, l);
}

/// Moving a number by a multiple of `m` does not change its remainder.
pub proof fn lemma_shift_by_multiple(a: int, d: int, m: int)
    requires
        0 < m,
        d % m == 0,
    ensures
        (a + d) % m == a % m,
        (a - d) % m == a % m,
{
    lemma_fundamental_div_mod(d, m);
    lemma_mod_multiples_vanish(d / m, a, m);
    lemma_mod_multiples_vanish(-(d / m), a, m);
    assert(m * (d / m) + a == a + d);
    assert(m * (-(d / m)) + a == a - d) by (nonlinear_arith)
        requires
            d == m * (d / m),
    ;
}

impl Grid {
    /// Whether the grid has cells inside its outer ring.
    pub open spec fn has_interior(self) -> bool {
        self.width >= 3 && self.height >= 3
    }

    /// The number of minutes after which every blizzard is back on its cell
    /// of minute 0; 1 for a grid without interior, which never changes.
    pub open spec fn period(self) -> nat {
        if self.has_interior() {
            lcm(self.inner_width() as nat, self.inner_height() as nat)
        } else {
            1
        }
    }

    /// The minutes `d` after which the grid is sure to look as it does now.
    pub open spec fn repeats_after(self, d: int) -> bool {
        self.has_interior() ==> d % self.inner_width() == 0 && d % self.inner_height() == 0
    }
}

/// The period is positive and a multiple of both interior dimensions.
pub proof fn lemma_period_repeats(g: Grid)
    ensures
        g.period() > 0,
        g.repeats_after(g.period() as int),
        g.has_interior() ==> g.period() <= g.inner_width() * g.inner_height(),
{
    if g.has_interior() {
        lemma_lcm_is_common_multiple(g.inner_width() as nat, g.inner_height() as nat);
    }
}

/// Every multiple of the period is a number of minutes after which the grid
/// looks as it does now.
pub proof fn lemma_period_multiple_repeats(g: Grid, d: int)
    requires
        d % (g.period() as int) == 0,
    ensures
        g.repeats_after(d),
{
    lemma_period_repeats(g);
    if g.has_interior() {
        lemma_multiple_of_multiple(d, g.period() as int, g.inner_width());
        lemma_multiple_of_multiple(d, g.period() as int, g.inner_height());
    }
}

/// A cell carries the same flags at two minutes that lie a common multiple of
/// the interior's dimensions apart.
pub proof fn lemma_occupancy_repeats(g: Grid, x: int, y: int, t: int, d: int)
    requires
        g.in_bounds(x, y),
        g.repeats_after(d),
    ensures
        g.occupancy(x, y, t + d) == g.occupancy(x, y, t),
        g.occupancy(x, y, t - d) == g.occupancy(x, y, t),
        g.passable(x, y, t + d) == g.passable(x, y, t),
        g.passable(x, y, t - d) == g.passable(x, y, t),
{
    if !g.on_border(x, y) {
        let iw = g.inner_width();
        let ih = g.inner_height();
        lemma_shift_by_multiple(y - 1 + t, d, ih);
        lemma_shift_by_multiple(y - 1 - t, d, ih);
        lemma_shift_by_multiple(x - 1 + t, d, iw);
        lemma_shift_by_multiple(x - 1 - t, d, iw);
        assert(g.north_origin(y, t + d) == g.north_origin(y, t));
        assert(g.south_origin(y, t + d) == g.south_origin(y, t));
        assert(g.east_origin(x, t + d) == g.east_origin(x, t));
        assert(g.west_origin(x, t + d) == g.west_origin(x, t));
        assert(g.north_origin(y, t - d) == g.north_origin(y, t));
        assert(g.south_origin(y, t - d) == g.south_origin(y, t));
        assert(g.east_origin(x, t - d) == g.east_origin(x, t));
        assert(g.west_origin(x, t - d) == g.west_origin(x, t));
    }
}

/// Periodicity: every cell carries at minute `t + period` the flags that it
/// carries at minute `t`, the period being the least common multiple of the
/// interior's width and height.
pub proof fn lemma_occupancy_periodic(g: Grid, x: int, y: int, t: int)
    requires
        g.in_bounds(x, y),
    ensures
        g.occupancy(x, y, t + g.period()) == g.occupancy(x, y, t),
        g.has_interior() ==> g.period() == lcm(g.inner_width() as nat, g.inner_height() as nat),
{
    lemma_period_repeats(g);
    lemma_occupancy_repeats(g, x, y, t, g.period() as int);
}

/// The outer ring does not change with time: a cell on it carries the same
/// flags at any two minutes, those of minute 0.
pub proof fn lemma_border_is_static(g: Grid, x: int, y: int, t1: int, t2: int)
    requires
        g.on_border(x, y),
    ensures
        g.occupancy(x, y, t1) == g.occupancy(x, y, t2),
        g.occupancy(x, y, t1) == g.tile(x, y),
{
}

/// The greatest common divisor of two numbers.
pub fn greatest_common_divisor(a: usize, b: usize) -> (g: usize)
    ensures
        g == gcd(a as nat, b as nat),
{
    let mut x: usize = a;
    let mut y: usize = b;
    while y != 0
        invariant
            gcd(x as nat, y as nat) == gcd(a as nat, b as nat),
        decreases y,
    {
        let r: usize = x % y;
        x = y;
        y = r;
    }
    x
}

impl Level {
    /// The number of minutes after which the grid looks as it did at first.
    pub fn period(&self) -> (p: usize)
        requires
            self.wf(),
        ensures
            p == self@.period(),
    {
        let width: usize = self.width();
        let height: usize = self.height();
        if width < 3 || height < 3 {
            return 1;
        }
        let inner_width: usize = width - 2;
        let inner_height: usize = height - 2;
        let g: usize = greatest_common_divisor(inner_width, inner_height);
        proof {
            lemma_gcd_divides(inner_width as nat, inner_height as nat);
            lemma_lcm_is_common_multiple(inner_width as nat, inner_height as nat);
            assert(inner_width * inner_height <= width * height) by (nonlinear_arith)
                requires
                    inner_width == width - 2,
                    inner_height == height - 2,
                    width >= 3,
                    height >= 3,
            ;
        }
        (inner_width / g) * inner_height
    }
}

} // verus!
