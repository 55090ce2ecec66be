//! The square root of a single-precision number, rounded to the nearest
//! representable value.
use crate::arith::align;
use crate::grid::{grid, lemma_grid_increases, lemma_grid_step, lower_midpoint, upper_midpoint};
use crate::rounding::{round_to_grid, rounds_bracket, scale_down, scale_up, unpack};
use crate::single::{Single, INFINITY_MAGNITUDE, NAN_BITS};
use vstd::arithmetic::power2::{
    lemma2_to64, lemma2_to64_rest, lemma_pow2_adds, lemma_pow2_pos, lemma_pow2_unfold, pow2,
};
use vstd::prelude::*;

verus! {

/// `m` is the magnitude nearest to the square root of `n`, counted in steps,
/// a tie going to the even pattern.
pub open spec fn rounds_to_root(n: int, m: int) -> bool {
    &&& 0 <= m <= 0x7F80_0000
    &&& m > 0 ==> {
        ||| lower_midpoint(m) * lower_midpoint(m) < 4 * n
        ||| (lower_midpoint(m) * lower_midpoint(m) == 4 * n && m % 2 == 0)
    }
    &&& m < 0x7F80_0000 ==> {
        ||| 4 * n < upper_midpoint(m) * upper_midpoint(m)
        ||| (4 * n == upper_midpoint(m) * upper_midpoint(m) && m % 2 == 0)
    }
}

/// The magnitude nearest to the square root of `n` steps squared.
pub open spec fn nearest_root(n: int) -> int {
    choose|m: int| rounds_to_root(n, m)
}

/// Squaring keeps the order of numbers that are not negative.
proof fn lemma_squares(a: int, b: int)
    by (nonlinear_arith)
    requires
        0 <= a,
        0 <= b,
    ensures
        a < b <==> a * a < b * b,
        a == b <==> a * a == b * b,
        a <= b <==> a * a <= b * b,
{
}

proof fn lemma_midpoints_positive(m: int)
    requires
        0 <= m,
    ensures
        0 <= upper_midpoint(m),
        m > 0 ==> 0 <= lower_midpoint(m),
        m > 0 ==> lower_midpoint(m) == upper_midpoint(m - 1),
{
    assert(grid(0) == 0);
    if m > 0 {
        lemma_grid_increases(0, m);
        if m > 1 {
            lemma_grid_increases(0, m - 1);
        }
    }
    lemma_grid_increases(0, m + 1);
}

proof fn lemma_root_ordered(n: int, m1: int, m2: int)
    requires
        m1 <= m2,
        rounds_to_root(n, m1),
        rounds_to_root(n, m2),
    ensures
        m1 == m2,
{
    if m1 < m2 {
        let hi = upper_midpoint(m1);
        let lo = lower_midpoint(m2);
        lemma_midpoints_positive(m1);
        lemma_midpoints_positive(m2);
        if m1 + 1 < m2 {
            lemma_grid_increases(m1, m2 - 1);
            lemma_grid_increases(m1 + 1, m2);
        }
        lemma_squares(hi, lo);
        assert(m1 + 1 == m2);
    }
}

/// At most one magnitude is the rounding of a given square root.
pub proof fn lemma_root_unique(n: int, m1: int, m2: int)
    requires
        rounds_to_root(n, m1),
        rounds_to_root(n, m2),
    ensures
        m1 == m2,
{
    if m1 <= m2 {
        lemma_root_ordered(n, m1, m2);
    } else {
        lemma_root_ordered(n, m2, m1);
    }
}

/// The largest magnitude up to `top` whose lower midpoint does not lie
/// above the square root.
proof fn lemma_largest_root_below(n: int, top: int) -> (m: int)
    requires
        0 <= n,
        0 <= top <= 0x7F80_0000,
        top < 0x7F80_0000 ==> 4 * n < lower_midpoint(top + 1) * lower_midpoint(top + 1),
    ensures
        0 <= m <= top,
        m > 0 ==> lower_midpoint(m) * lower_midpoint(m) <= 4 * n,
        m < 0x7F80_0000 ==> 4 * n < upper_midpoint(m) * upper_midpoint(m),
    decreases top,
{
    if top == 0 || lower_midpoint(top) * lower_midpoint(top) <= 4 * n {
        top
    } else {
        lemma_largest_root_below(n, top - 1)
    }
}

/// Every square root of what is not negative has a rounding.
pub proof fn lemma_root_rounding_exists(n: int)
    requires
        0 <= n,
    ensures
        rounds_to_root(n, nearest_root(n)),
{
    let m = lemma_largest_root_below(n, 0x7F80_0000);
    if m > 0 && lower_midpoint(m) * lower_midpoint(m) == 4 * n && m % 2 != 0 {
        // A tie between an odd pattern and the even one below it.
        if m > 1 {
            lemma_midpoints_positive(m - 1);
            lemma_midpoints_positive(m);
            lemma_grid_step(m - 2);
            lemma_grid_step(m - 1);
            lemma_squares(lower_midpoint(m - 1), lower_midpoint(m));
        }
        assert(rounds_to_root(n, m - 1));
    } else {
        assert(rounds_to_root(n, m));
    }
}

/// A magnitude that is a rounding of the square root is the nearest one.
pub proof fn lemma_nearest_root(n: int, m: int)
    requires
        rounds_to_root(n, m),
    ensures
        nearest_root(n) == m,
{
    lemma_root_unique(n, m, nearest_root(n));
}

/// Rounding a root keeps the order: the root of what is at or above the
/// square of a grid point does not round below that point.
pub proof fn lemma_root_at_least(n: int, m: int, g: int)
    requires
        rounds_to_root(n, m),
        0 <= g <= 0x7F80_0000,
        grid(g) * grid(g) <= n,
    ensures
        g <= m,
{
    if m < g {
        lemma_grid_increases(m, g);
        if m + 1 < g {
            lemma_grid_increases(m + 1, g);
        }
        lemma_midpoints_positive(m);
        lemma_grid_increases(0, g);
        lemma_squares(upper_midpoint(m), 2 * grid(g));
        assert((2 * grid(g)) * (2 * grid(g)) == 4 * (grid(g) * grid(g))) by (nonlinear_arith);
    }
}

/// Rounding a root keeps the order: the root of what is at or below the
/// square of a grid point does not round above that point.
pub proof fn lemma_root_at_most(n: int, m: int, g: int)
    requires
        rounds_to_root(n, m),
        0 <= g,
        n <= grid(g) * grid(g),
    ensures
        m <= g,
{
    if m > g {
        lemma_grid_increases(g, m);
        if g < m - 1 {
            lemma_grid_increases(g, m - 1);
        }
        lemma_midpoints_positive(m);
        assert(grid(0) == 0);
        if g > 0 {
            lemma_grid_increases(0, g);
        }
        lemma_squares(2 * grid(g), lower_midpoint(m));
        assert((2 * grid(g)) * (2 * grid(g)) == 4 * (grid(g) * grid(g))) by (nonlinear_arith);
    }
}

/// The whole part of the square root of `n`.
pub fn whole_root(n: u64) -> (r: u64)
    requires
        n < 0x8000_0000_0000_0000,
    ensures
        r * r <= n < (r + 1) * (r + 1),
        r < 0x1_0000_0000,
{
    let mut r: u64 = 0;
    let mut span: u64 = 0x1_0000_0000;
    let mut k: u32 = 32;
    proof {
        lemma2_to64();
    }
    while span > 1
        invariant
            span == pow2(k as nat),
            k <= 32,
            1 <= span,
            r + span <= 0x1_0000_0000,
            r * r <= n < (r + span) * (r + span),
        decreases span,
    {
        proof {
            lemma2_to64();
            if k == 0 {
            } else {
                lemma_pow2_unfold(k as nat);
            }
        }
        let half: u64 = span / 2;
        let probe: u64 = r + half;
        assert(probe * probe < 0x1_0000_0000_0000_0000) by (nonlinear_arith)
            requires
                probe < 0x1_0000_0000,
        ;
        if probe * probe <= n {
            r = probe;
        }
        span = half;
        k = (k - 1) as u32;
    }
    r
}

/// A rounding of everything between `q` and `q + 1` units of 2^`x` is the
/// rounding of the square root of `n`, where `q` is the whole root of `wide`
/// and `n` is `wide` units of 2^`2x`.
proof fn lemma_root_rounds(q: int, exact: bool, x: int, m: int, wide: int, n: int)
    requires
        0 <= x,
        0 <= q,
        q * q <= wide < (q + 1) * (q + 1),
        exact == (q * q == wide),
        rounds_bracket(q, exact, x, m),
        n == wide * (pow2(x as nat) * pow2(x as nat)),
    ensures
        rounds_to_root(n, m),
{
    let up = pow2(x as nat) as int;
    let v = q * up;
    let v1 = (q + 1) * up;
    lemma_pow2_pos(x as nat);
    lemma_midpoints_positive(m);
    assert(v * v == (q * q) * (up * up)) by (nonlinear_arith)
        requires
            v == q * up,
    ;
    assert(v1 * v1 == ((q + 1) * (q + 1)) * (up * up)) by (nonlinear_arith)
        requires
            v1 == (q + 1) * up,
    ;
    assert(up * up > 0) by (nonlinear_arith)
        requires
            up > 0,
    ;
    assert(v * v <= n && n < v1 * v1 && (exact <==> v * v == n)) by (nonlinear_arith)
        requires
            v * v == (q * q) * (up * up),
            v1 * v1 == ((q + 1) * (q + 1)) * (up * up),
            n == wide * (up * up),
            up * up > 0,
            q * q <= wide < (q + 1) * (q + 1),
            exact == (q * q == wide),
    ;
    assert(0 <= v && 0 <= v1) by (nonlinear_arith)
        requires
            v == q * up,
            v1 == (q + 1) * up,
            q >= 0,
            up > 0,
    ;
    assert((2 * v) * (2 * v) == 4 * (v * v)) by (nonlinear_arith);
    assert((2 * v1) * (2 * v1) == 4 * (v1 * v1)) by (nonlinear_arith);
    if m > 0 {
        lemma_squares(lower_midpoint(m), 2 * v);
    }
    if m < 0x7F80_0000 {
        lemma_squares(2 * v, upper_midpoint(m));
        lemma_squares(2 * v1, upper_midpoint(m));
    }
}

/// The steps of `s * 2^e`, taken 149 bits up, are `wide` units of 2^`2x`
/// where `wide` is the significand `j + 38` bits up and `2x` makes up the
/// difference.
proof fn lemma_root_identity(s: int, e: int, j: int, wide: int, x: int)
    requires
        0 <= e,
        0 <= j,
        0 <= x,
        2 * x == e - j + 111,
        wide == (s * pow2(j as nat)) * 0x40_0000_0000,
    ensures
        (s * pow2(e as nat)) * pow2(149) == wide * (pow2(x as nat) * pow2(x as nat)),
{
    let pe = pow2(e as nat) as int;
    let kj = pow2(j as nat) as int;
    let c = pow2(149) as int;
    let up = pow2(x as nat) as int;
    let c38 = pow2(38) as int;
    lemma2_to64_rest();
    lemma_pow2_adds(x as nat, x as nat);
    lemma_pow2_adds(j as nat, 38);
    lemma_pow2_adds((j + 38) as nat, (2 * x) as nat);
    lemma_pow2_adds(e as nat, 149);
    assert((kj * c38) * (up * up) == pe * c);
    assert((s * pe) * c == ((s * kj) * c38) * (up * up)) by (nonlinear_arith)
        requires
            (kj * c38) * (up * up) == pe * c,
    {
        assert((s * pe) * c == s * (pe * c));
        assert(((s * kj) * c38) * (up * up) == s * ((kj * c38) * (up * up)));
    }
}

impl Single {
    /// The square root of a number: not a number for a non-number and for
    /// what is below zero; the number itself for either zero and for
    /// positive infinity; else the positive rounded root.
    pub open spec fn root(self) -> Single {
        if self.is_nan() || (self.is_negative() && !self.is_zero()) {
            Single::nan()
        } else if self.is_zero() || self.is_infinite() {
            self
        } else {
            Single::compose(false, nearest_root(self.steps() * pow2(149)) as u32)
        }
    }

    /// Takes the square root.
    pub fn sqrt(self) -> (r: Single)
        ensures
            r == self.root(),
    {
        let m0: u32 = self.magnitude_bits();
        if m0 > INFINITY_MAGNITUDE {
            return Single::from_bits(NAN_BITS);
        }
        if m0 == 0 {
            return self;
        }
        if self.sign() {
            return Single::from_bits(NAN_BITS);
        }
        if m0 == INFINITY_MAGNITUDE {
            return self;
        }
        let (s, e) = unpack(m0);
        let (lead, j) = align(s);
        // An odd exponent under the aligned significand leaves an even one
        // under the root's argument.
        let odd: bool = (e - j + 25) % 2 == 0;
        let sig: u64 = if odd { lead } else { lead * 2 };
        let up_by: i32 = if odd { j } else { j + 1 };
        let ghost k: int = pow2(j as nat) as int;
        proof {
            lemma_pow2_unfold((j + 1) as nat);
            assert(sig == s * pow2(up_by as nat)) by (nonlinear_arith)
                requires
                    lead == s * k,
                    sig == (if odd { lead as int } else { lead * 2 }),
                    pow2(up_by as nat) == (if odd { k } else { 2 * k }),
            ;
        }
        let wide: u64 = sig * 0x40_0000_0000;
        let x: i32 = (e - up_by + 111) / 2;
        let q: u64 = whole_root(wide);
        proof {
            assert(q >= 0x4000_0000) by (nonlinear_arith)
                requires
                    wide >= 0x2000_0000_0000_0000,
                    wide < (q + 1) * (q + 1),
                    q >= 0,
            ;
        }
        let exact: bool = q * q == wide;
        let m: u32 = round_to_grid(q, exact, x);
        proof {
            let n = self.steps() * pow2(149);
            lemma_root_identity(s as int, e as int, up_by as int, wide as int, x as int);
            lemma_root_rounds(q as int, exact, x as int, m as int, wide as int, n);
            lemma_nearest_root(n, m as int);
        }
        Single::with_sign(false, m)
    }
}

} // verus!
