//! The grid of representable magnitudes and what it means to round onto it.
//!
//! A finite magnitude stands for a whole number of steps of 2^-149. Counting
//! in those steps turns every statement about rounding into one about
//! integers.
use vstd::arithmetic::power2::{lemma2_to64, lemma_pow2_pos, lemma_pow2_unfold, pow2};
use vstd::prelude::*;

verus! {

/// The number of steps of 2^-149 that the magnitude pattern `m` stands for.
/// The pattern of infinity counts as 2^277, one binade above the largest
/// finite value.
pub open spec fn grid(m: int) -> int {
    let e = m / 0x80_0000;
    let f = m % 0x80_0000;
    if e <= 0 {
        f
    } else {
        (0x80_0000 + f) * pow2((e - 1) as nat)
    }
}

/// Twice the midpoint between `m` and the magnitude below it.
pub open spec fn lower_midpoint(m: int) -> int {
    grid(m - 1) + grid(m)
}

/// Twice the midpoint between `m` and the magnitude above it.
pub open spec fn upper_midpoint(m: int) -> int {
    grid(m) + grid(m + 1)
}

/// `m` is the magnitude nearest to `n / d` steps, a tie going to the even
/// pattern. A quotient that lies half a step or more beyond the largest
/// finite value rounds to infinity.
pub open spec fn rounds_to(n: int, d: int, m: int) -> bool {
    &&& 0 <= m <= 0x7F80_0000
    &&& m > 0 ==> {
        ||| lower_midpoint(m) * d < 2 * n
        ||| (lower_midpoint(m) * d == 2 * n && m % 2 == 0)
    }
    &&& m < 0x7F80_0000 ==> {
        ||| 2 * n < upper_midpoint(m) * d
        ||| (2 * n == upper_midpoint(m) * d && m % 2 == 0)
    }
}

/// Each pattern stands for more than the one before it.
pub proof fn lemma_grid_step(m: int)
    requires
        0 <= m,
    ensures
        grid(m) < grid(m + 1),
{
    let e = m / 0x80_0000;
    let f = m % 0x80_0000;
    if f + 1 < 0x80_0000 {
        assert((m + 1) / 0x80_0000 == e);
        assert((m + 1) % 0x80_0000 == f + 1);
        if e > 0 {
            let p = pow2((e - 1) as nat);
            lemma_pow2_pos((e - 1) as nat);
            assert((0x80_0000 + f) * p < (0x80_0000 + f + 1) * p) by (nonlinear_arith)
                requires
                    p > 0,
            ;
        }
    } else {
        assert((m + 1) / 0x80_0000 == e + 1);
        assert((m + 1) % 0x80_0000 == 0);
        if e > 0 {
            let p = pow2((e - 1) as nat);
            lemma_pow2_pos((e - 1) as nat);
            lemma_pow2_unfold(e as nat);
            assert((0x80_0000 + f) * p < 0x80_0000 * (2 * p)) by (nonlinear_arith)
                requires
                    p > 0,
                    f < 0x80_0000,
            ;
        } else {
            assert(pow2(0) == 1) by {
                lemma2_to64();
            }
        }
    }
}

/// Patterns order the way their values do.
pub proof fn lemma_grid_increases(a: int, b: int)
    requires
        0 <= a < b,
    ensures
        grid(a) < grid(b),
    decreases b - a,
{
    lemma_grid_step(b - 1);
    if a < b - 1 {
        lemma_grid_increases(a, b - 1);
    }
}

/// A significand of at most twenty-four bits at exponent `ex`, written as a
/// pattern: the exponent field is `ex + 1` where the significand has its
/// leading bit, and zero where it has not; a significand of 2^24 carries into
/// the next exponent.
pub proof fn lemma_grid_packed(ex: int, sig: int)
    requires
        0 <= ex,
        0 <= sig <= 0x100_0000,
        ex == 0 || 0x80_0000 <= sig,
    ensures
        grid(ex * 0x80_0000 + sig) == sig * pow2(ex as nat),
{
    let m = ex * 0x80_0000 + sig;
    let p = pow2(ex as nat);
    if sig < 0x80_0000 {
        assert(m / 0x80_0000 == 0);
        assert(p == 1) by {
            lemma2_to64();
        }
        assert(sig * p == sig) by (nonlinear_arith)
            requires
                p == 1,
        ;
    } else if sig < 0x100_0000 {
        assert(m / 0x80_0000 == ex + 1);
        assert(m % 0x80_0000 == sig - 0x80_0000);
        assert(((ex + 1) - 1) as nat == ex as nat);
        assert(0x80_0000 + (sig - 0x80_0000) == sig);
    } else {
        assert(m / 0x80_0000 == ex + 2);
        assert(m % 0x80_0000 == 0);
        assert(((ex + 2) - 1) as nat == (ex + 1) as nat);
        lemma_pow2_unfold((ex + 1) as nat);
        assert(pow2((ex + 1) as nat) == 2 * p);
        assert(0x80_0000 * (2 * p) == 0x100_0000 * p) by (nonlinear_arith);
    }
}

/// At most one magnitude is the rounding of a given quotient.
pub proof fn lemma_rounding_unique(n: int, d: int, m1: int, m2: int)
    requires
        d > 0,
        rounds_to(n, d, m1),
        rounds_to(n, d, m2),
    ensures
        m1 == m2,
{
    if m1 <= m2 {
        lemma_rounding_ordered(n, d, m1, m2);
    } else {
        lemma_rounding_ordered(n, d, m2, m1);
    }
}

proof fn lemma_rounding_ordered(n: int, d: int, m1: int, m2: int)
    requires
        d > 0,
        m1 <= m2,
        rounds_to(n, d, m1),
        rounds_to(n, d, m2),
    ensures
        m1 == m2,
{
    if m1 < m2 {
        // The quotient lies at or below the midpoint above `m1` and at or
        // above the one below `m2`, so the two midpoints coincide, the
        // patterns are neighbours, and both would have to be even.
        let hi = upper_midpoint(m1);
        let lo = lower_midpoint(m2);
        if m1 + 1 < m2 {
            lemma_grid_increases(m1, m2 - 1);
            lemma_grid_increases(m1 + 1, m2);
        }
        assert(hi <= lo);
        assert(hi * d <= lo * d) by (nonlinear_arith)
            requires
                hi <= lo,
                d > 0,
        ;
        assert(hi * d == lo * d);
        assert(hi == lo) by (nonlinear_arith)
            requires
                hi * d == lo * d,
                d > 0,
        ;
        assert(m1 + 1 == m2);
    }
}

/// The largest magnitude up to `top` whose lower midpoint does not lie
/// above the quotient.
proof fn lemma_largest_below(n: int, d: int, top: int) -> (m: int)
    requires
        0 <= n,
        0 < d,
        0 <= top <= 0x7F80_0000,
        top < 0x7F80_0000 ==> 2 * n < lower_midpoint(top + 1) * d,
    ensures
        0 <= m <= top,
        m > 0 ==> lower_midpoint(m) * d <= 2 * n,
        m < 0x7F80_0000 ==> 2 * n < upper_midpoint(m) * d,
    decreases top,
{
    if top == 0 || lower_midpoint(top) * d <= 2 * n {
        top
    } else {
        lemma_largest_below(n, d, top - 1)
    }
}

/// Every quotient that is not negative has a rounding.
pub proof fn lemma_rounding_exists(n: int, d: int)
    requires
        0 <= n,
        0 < d,
    ensures
        rounds_to(n, d, nearest(n, d)),
{
    let m = lemma_largest_below(n, d, 0x7F80_0000);
    if m > 0 && lower_midpoint(m) * d == 2 * n && m % 2 != 0 {
        // A tie between an odd pattern and the even one below it.
        if m > 1 {
            lemma_grid_step(m - 2);
            lemma_grid_step(m - 1);
            assert(lower_midpoint(m - 1) * d < lower_midpoint(m) * d) by (nonlinear_arith)
                requires
                    lower_midpoint(m - 1) < lower_midpoint(m),
                    d > 0,
            ;
        }
        assert(rounds_to(n, d, m - 1));
    } else {
        assert(rounds_to(n, d, m));
    }
}

/// The magnitude nearest to `n / d` steps.
pub open spec fn nearest(n: int, d: int) -> int {
    choose|m: int| rounds_to(n, d, m)
}

/// A magnitude that is a rounding of the quotient is the nearest one.
pub proof fn lemma_nearest(n: int, d: int, m: int)
    requires
        d > 0,
        rounds_to(n, d, m),
    ensures
        nearest(n, d) == m,
{
    lemma_rounding_unique(n, d, m, nearest(n, d));
}

/// Nothing rounds to zero.
pub proof fn lemma_nearest_zero(d: int)
    requires
        d > 0,
    ensures
        nearest(0, d) == 0,
{
    lemma_grid_step(0);
    assert(grid(0) == 0);
    assert(0 < upper_midpoint(0) * d) by (nonlinear_arith)
        requires
            upper_midpoint(0) > 0,
            d > 0,
    ;
    lemma_nearest(0, d, 0);
}

/// Comparing `l / 2` with a quotient does not depend on how the quotient is
/// written.
proof fn lemma_cross(l: int, n1: int, d1: int, n2: int, d2: int)
    by (nonlinear_arith)
    requires
        d1 > 0,
        d2 > 0,
        n1 * d2 == n2 * d1,
    ensures
        l * d1 < 2 * n1 <==> l * d2 < 2 * n2,
        l * d1 == 2 * n1 <==> l * d2 == 2 * n2,
{
    assert((l * d1) * d2 == (l * d2) * d1);
    assert((2 * n1) * d2 == (2 * n2) * d1);
}

/// Rounding depends on the quotient alone, not on the fraction that names
/// it.
pub proof fn lemma_rounding_of_equal_quotients(n1: int, d1: int, n2: int, d2: int, m: int)
    requires
        d1 > 0,
        d2 > 0,
        n1 * d2 == n2 * d1,
        rounds_to(n1, d1, m),
    ensures
        rounds_to(n2, d2, m),
{
    lemma_cross(lower_midpoint(m), n1, d1, n2, d2);
    lemma_cross(upper_midpoint(m), n1, d1, n2, d2);
}

/// A quantity that lies on the grid rounds to its own pattern.
pub proof fn lemma_nearest_of_grid_point(m: int, d: int)
    requires
        0 <= m <= 0x7F80_0000,
        d > 0,
    ensures
        nearest(grid(m) * d, d) == m,
{
    let g = grid(m);
    if m > 0 {
        lemma_grid_step(m - 1);
        assert(lower_midpoint(m) * d < 2 * (g * d)) by (nonlinear_arith)
            requires
                lower_midpoint(m) < 2 * g,
                d > 0,
        ;
    }
    lemma_grid_step(m);
    assert(2 * (g * d) < upper_midpoint(m) * d) by (nonlinear_arith)
        requires
            2 * g < upper_midpoint(m),
            d > 0,
    ;
    lemma_nearest(g * d, d, m);
}

/// The pattern of the number one stands for 2^149 steps.
pub proof fn lemma_grid_of_one()
    ensures
        grid(0x3F80_0000) == pow2(149),
{
    lemma_grid_packed(126, 0x80_0000);
    lemma2_to64();
    vstd::arithmetic::power2::lemma_pow2_adds(23, 126);
}

/// Rounding keeps the order: a quotient at or above a grid point does not
/// round below it.
pub proof fn lemma_rounding_at_least(n: int, d: int, m: int, g: int)
    requires
        d > 0,
        rounds_to(n, d, m),
        0 <= g <= 0x7F80_0000,
        grid(g) * d <= n,
    ensures
        g <= m,
{
    if m < g {
        lemma_grid_increases(m, g);
        if m + 1 < g {
            lemma_grid_increases(m + 1, g);
        }
        assert(upper_midpoint(m) * d < 2 * (grid(g) * d)) by (nonlinear_arith)
            requires
                upper_midpoint(m) < 2 * grid(g),
                d > 0,
        ;
    }
}

/// Rounding keeps the order: a quotient at or below a grid point does not
/// round above it.
pub proof fn lemma_rounding_at_most(n: int, d: int, m: int, g: int)
    requires
        d > 0,
        rounds_to(n, d, m),
        0 <= g,
        n <= grid(g) * d,
    ensures
        m <= g,
{
    if m > g {
        lemma_grid_increases(g, m);
        if g < m - 1 {
            lemma_grid_increases(g, m - 1);
        }
        assert(2 * (grid(g) * d) < lower_midpoint(m) * d) by (nonlinear_arith)
            requires
                2 * grid(g) < lower_midpoint(m),
                d > 0,
        ;
    }
}

} // verus!
