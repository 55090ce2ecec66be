//! Rounding a positive quantity onto the grid of magnitudes.
//!
//! The quantity is handed over as a whole number `q` of units of 2^`x` steps,
//! together with the word whether it is exactly that or lies strictly between
//! `q` and `q + 1` units. Every arithmetic operation reduces to this form.
use crate::grid::{
    grid, lemma_grid_increases, lemma_grid_packed, lemma_grid_step,
    lemma_rounding_of_equal_quotients, lower_midpoint, rounds_to, upper_midpoint,
};
use vstd::arithmetic::div_mod::{
    lemma_div_denominator, lemma_div_is_ordered_by_denominator, lemma_fundamental_div_mod,
    lemma_mod_bound,
};
use vstd::arithmetic::power2::{
    lemma2_to64, lemma2_to64_rest, lemma_pow2_adds, lemma_pow2_pos, lemma_pow2_strictly_increases,
    lemma_pow2_unfold, pow2,
};
use vstd::bits::lemma_u64_shl_is_mul;
use vstd::prelude::*;

verus! {

/// The factor 2^`x` where `x` is not negative, else one.
pub open spec fn scale_up(x: int) -> int {
    if x >= 0 {
        pow2(x as nat) as int
    } else {
        1
    }
}

/// The factor 2^-`x` where `x` is negative, else one.
pub open spec fn scale_down(x: int) -> int {
    if x < 0 {
        pow2((-x) as nat) as int
    } else {
        1
    }
}

/// `m` is the rounding of a quantity `v` of steps that is given by `q`
/// units of 2^`x` steps: with `exact`, `v` is `q` units; without, `v` lies
/// strictly between `q` and `q + 1` units, and then `m` is the rounding of
/// every such `v`.
pub open spec fn rounds_bracket(q: int, exact: bool, x: int, m: int) -> bool {
    if exact {
        rounds_to(q * scale_up(x), scale_down(x), m)
    } else {
        &&& 0 <= m <= 0x7F80_0000
        &&& m > 0 ==> lower_midpoint(m) * scale_down(x) <= 2 * (q * scale_up(x))
        &&& m < 0x7F80_0000 ==> 2 * ((q + 1) * scale_up(x)) <= upper_midpoint(m) * scale_down(x)
    }
}

/// 2^`k` as a machine word.
pub fn power_of_two(k: u32) -> (r: u64)
    requires
        k <= 63,
    ensures
        r == pow2(k as nat),
{
    proof {
        lemma2_to64();
        lemma_pow2_strictly_increases(k as nat, 64);
        lemma_u64_shl_is_mul(1, k as u64);
    }
    1u64 << (k as u64)
}

/// Carries a comparison between `a * t` and `2 * b` over to the two scales,
/// which stand in the same ratio as `u` and `t`.
proof fn lemma_rescale(a: int, b: int, t: int, u: int, up: int, down: int)
    by (nonlinear_arith)
    requires
        u * down == t * up,
        up > 0,
        down > 0,
    ensures
        a * t < 2 * b ==> (a * u) * down < 2 * (b * up),
        a * t <= 2 * b ==> (a * u) * down <= 2 * (b * up),
        a * t == 2 * b ==> (a * u) * down == 2 * (b * up),
        2 * b <= a * t ==> 2 * (b * up) <= (a * u) * down,
        2 * b < a * t ==> 2 * (b * up) < (a * u) * down,
{
}

/// Multiplying both sides of a strict comparison by a positive factor.
proof fn lemma_scaled_below(lo: int, g: int, down: int)
    by (nonlinear_arith)
    requires
        lo < g,
        down > 0,
    ensures
        lo * down < g * down,
{
}

/// The two scales of `x` stand in the ratio of 2^`ex` to 2^`sh` where
/// `x == ex - sh`.
pub proof fn lemma_scales(x: int, sh: int, ex: int)
    requires
        0 <= sh,
        0 <= ex,
        x == ex - sh,
    ensures
        pow2(ex as nat) * scale_down(x) == pow2(sh as nat) * scale_up(x),
        scale_up(x) > 0,
        scale_down(x) > 0,
{
    if x >= 0 {
        lemma_pow2_adds(sh as nat, x as nat);
        lemma_pow2_pos(x as nat);
    } else {
        lemma_pow2_adds(ex as nat, (-x) as nat);
        lemma_pow2_pos((-x) as nat);
    }
}

/// What is known once a quantity has been cut into a kept significand and a
/// rest: `q == sig * 2^sh + rest` with the rest below 2^`sh`, the significand
/// of at most twenty-four bits and, above exponent zero, with its leading bit.
pub open spec fn cut(q: int, sh: int, ex: int, sig: int, rest: int) -> bool {
    &&& 1 <= sh
    &&& 0 <= ex
    &&& 0 <= rest < pow2(sh as nat)
    &&& q == sig * pow2(sh as nat) + rest
    &&& 0 <= sig < 0x100_0000
    &&& (ex == 0 || 0x80_0000 <= sig)
}

/// The significand is kept as it is where the rest is below half a unit, or
/// is exactly half with nothing following and the significand even.
proof fn lemma_round_down(q: int, exact: bool, x: int, sh: int, ex: int, sig: int, rest: int)
    requires
        cut(q, sh, ex, sig, rest),
        x == ex - sh,
        2 * rest < pow2(sh as nat) || (2 * rest == pow2(sh as nat) && exact && sig % 2 == 0),
        ex * 0x80_0000 + sig <= 0x7F80_0000,
    ensures
        rounds_bracket(q, exact, x, ex * 0x80_0000 + sig),
{
    let t = pow2(sh as nat) as int;
    let u = pow2(ex as nat) as int;
    let up = scale_up(x);
    let down = scale_down(x);
    let m = ex * 0x80_0000 + sig;
    lemma_scales(x, sh, ex);
    lemma_pow2_unfold(sh as nat);
    lemma_grid_packed(ex, sig);
    lemma_grid_packed(ex, sig + 1);
    let a = 2 * sig + 1;
    assert(a * t == 2 * (sig * t) + t) by (nonlinear_arith)
        requires
            a == 2 * sig + 1,
    ;
    assert(a * u == sig * u + (sig + 1) * u) by (nonlinear_arith)
        requires
            a == 2 * sig + 1,
    ;
    assert(upper_midpoint(m) == a * u);
    lemma_rescale(a, q + 1, t, u, up, down);
    lemma_rescale(a, q, t, u, up, down);
    if m > 0 {
        lemma_grid_step(m - 1);
        let g = 2 * sig;
        assert(g * u == 2 * (sig * u)) by (nonlinear_arith)
            requires
                g == 2 * sig,
        ;
        assert(g * t == 2 * (sig * t)) by (nonlinear_arith)
            requires
                g == 2 * sig,
        ;
        lemma_rescale(g, q, t, u, up, down);
        lemma_scaled_below(lower_midpoint(m), g * u, down);
    }
}

/// The significand goes up by one where the rest is above half a unit, or is
/// exactly half and either more follows or the significand is odd.
proof fn lemma_round_up(q: int, exact: bool, x: int, sh: int, ex: int, sig: int, rest: int)
    requires
        cut(q, sh, ex, sig, rest),
        x == ex - sh,
        2 * rest > pow2(sh as nat) || (2 * rest == pow2(sh as nat) && (!exact || sig % 2 == 1)),
        ex * 0x80_0000 + sig + 1 <= 0x7F80_0000,
    ensures
        rounds_bracket(q, exact, x, ex * 0x80_0000 + sig + 1),
{
    let t = pow2(sh as nat) as int;
    let u = pow2(ex as nat) as int;
    let up = scale_up(x);
    let down = scale_down(x);
    let m = ex * 0x80_0000 + sig + 1;
    lemma_scales(x, sh, ex);
    lemma_grid_packed(ex, sig);
    lemma_grid_packed(ex, sig + 1);
    let a = 2 * sig + 1;
    assert(a * t == 2 * (sig * t) + t) by (nonlinear_arith)
        requires
            a == 2 * sig + 1,
    ;
    assert(a * u == sig * u + (sig + 1) * u) by (nonlinear_arith)
        requires
            a == 2 * sig + 1,
    ;
    assert(lower_midpoint(m) == a * u);
    lemma_rescale(a, q, t, u, up, down);
    if m < 0x7F80_0000 {
        lemma_grid_step(m);
        let g = 2 * (sig + 1);
        assert(g * u == 2 * ((sig + 1) * u)) by (nonlinear_arith)
            requires
                g == 2 * (sig + 1),
        ;
        assert(g * t == 2 * (sig * t) + 2 * t) by (nonlinear_arith)
            requires
                g == 2 * (sig + 1),
        ;
        lemma_rescale(g, q + 1, t, u, up, down);
        lemma_rescale(g, q, t, u, up, down);
        lemma_scaled_below(g * u, upper_midpoint(m), down);
    }
}

/// A quantity at or beyond the value that the pattern of infinity stands for
/// rounds to infinity.
proof fn lemma_round_overflow(q: int, exact: bool, x: int, sh: int, ex: int, sig: int, rest: int)
    requires
        cut(q, sh, ex, sig, rest),
        x == ex - sh,
        ex * 0x80_0000 + sig >= 0x7F80_0000,
    ensures
        rounds_bracket(q, exact, x, 0x7F80_0000),
{
    let t = pow2(sh as nat) as int;
    let u = pow2(ex as nat) as int;
    let up = scale_up(x);
    let down = scale_down(x);
    let b = ex * 0x80_0000 + sig;
    lemma_scales(x, sh, ex);
    lemma_grid_packed(ex, sig);
    lemma_grid_step(0x7F80_0000 - 1);
    if b > 0x7F80_0000 {
        lemma_grid_increases(0x7F80_0000, b);
    }
    let g = 2 * sig;
    assert(g * u == 2 * (sig * u)) by (nonlinear_arith)
        requires
            g == 2 * sig,
    ;
    assert(g * t == 2 * (sig * t)) by (nonlinear_arith)
        requires
            g == 2 * sig,
    ;
    lemma_rescale(g, q, t, u, up, down);
    lemma_scaled_below(lower_midpoint(0x7F80_0000), g * u, down);
}

/// A quantity below half a step rounds to zero.
proof fn lemma_round_vanishes(q: int, exact: bool, x: int)
    requires
        0 <= q < 0x8000_0000_0000_0000,
        x <= -64,
    ensures
        rounds_bracket(q, exact, x, 0),
{
    lemma2_to64();
    if x < -64 {
        lemma_pow2_strictly_increases(64, (-x) as nat);
    }
    lemma_grid_packed(0, 0);
    lemma_grid_packed(0, 1);
    assert(upper_midpoint(0) == 1);
}

/// The dividing of `q` by 2^`sh`, with the quotient and the rest named.
proof fn lemma_cut(q: int, sh: int, ex: int, t: int)
    requires
        0 <= q,
        1 <= sh,
        0 <= ex,
        t == pow2(sh as nat),
        q / t < 0x100_0000,
        ex == 0 || 0x80_0000 <= q / t,
    ensures
        t > 0,
        t == 2 * (t / 2),
        cut(q, sh, ex, q / t, q % t),
{
    lemma_pow2_pos(sh as nat);
    lemma_pow2_unfold(sh as nat);
    lemma_fundamental_div_mod(q, t);
    lemma_mod_bound(q, t);
    assert(t * (q / t) == (q / t) * t) by (nonlinear_arith);
    assert(0 <= q / t) by (nonlinear_arith)
        requires
            0 <= q,
            t > 0,
    ;
}

/// Rounds a quantity of `q` units of 2^`x` steps to the nearest magnitude,
/// a tie going to the even pattern. With `exact` the quantity is `q` units;
/// without, it lies strictly between `q` and `q + 1` units.
pub fn round_to_grid(q: u64, exact: bool, x: i32) -> (m: u32)
    requires
        0x200_0000 <= q < 0x8000_0000_0000_0000,
        -1000 <= x <= 1000,
    ensures
        rounds_bracket(q as int, exact, x as int, m as int),
{
    // The smallest cut that leaves no more than twenty-four bits.
    let mut sh: u32 = 2;
    let mut t: u64 = 4;
    proof {
        lemma2_to64();
    }
    while q / t >= 0x100_0000
        invariant
            2 <= sh <= 39,
            t == pow2(sh as nat),
            0 < t < 0x100_0000_0000,
            q / t >= 0x80_0000,
            q < 0x8000_0000_0000_0000,
        decreases 64 - sh,
    {
        proof {
            lemma_fundamental_div_mod(q as int, t as int);
            lemma_mod_bound(q as int, t as int);
            assert(t * 0x100_0000 <= q) by (nonlinear_arith)
                requires
                    q == t * (q / t) + q % t,
                    q % t >= 0,
                    q / t >= 0x100_0000,
                    t > 0,
            ;
            if sh >= 39 {
                lemma2_to64_rest();
                if sh > 39 {
                    lemma_pow2_strictly_increases(39, sh as nat);
                }
            }
            lemma_div_denominator(q as int, t as int, 2);
            lemma_pow2_unfold((sh + 1) as nat);
        }
        t = t * 2;
        sh = sh + 1;
    }
    let mut ex: i32 = x + (sh as i32);
    if ex < 0 {
        // Below the normal range the steps themselves are the grid.
        if x <= -64 {
            proof {
                lemma_round_vanishes(q as int, exact, x as int);
            }
            return 0;
        }
        let ghost t0: int = t as int;
        let ghost sh0: nat = sh as nat;
        sh = (-x) as u32;
        t = power_of_two(sh);
        ex = 0;
        proof {
            lemma_pow2_strictly_increases(sh0, sh as nat);
            lemma_div_is_ordered_by_denominator(q as int, t0, t as int);
        }
    }
    let sig: u64 = q / t;
    let rest: u64 = q % t;
    let half: u64 = t / 2;
    let round_up: bool = rest > half || (rest == half && (!exact || sig % 2 == 1));
    proof {
        lemma_cut(q as int, sh as int, ex as int, t as int);
    }
    if ex >= 255 {
        proof {
            lemma_round_overflow(q as int, exact, x as int, sh as int, ex as int, sig as int, rest as int);
        }
        return 0x7F80_0000;
    }
    let base: u64 = (ex as u64) * 0x80_0000 + sig;
    if base >= 0x7F80_0000 {
        proof {
            lemma_round_overflow(q as int, exact, x as int, sh as int, ex as int, sig as int, rest as int);
        }
        0x7F80_0000
    } else if round_up {
        proof {
            lemma_round_up(q as int, exact, x as int, sh as int, ex as int, sig as int, rest as int);
        }
        (base + 1) as u32
    } else {
        proof {
            lemma_round_down(q as int, exact, x as int, sh as int, ex as int, sig as int, rest as int);
        }
        base as u32
    }
}

/// Writing `q` units of 2^`x` in units smaller by 2^`j` names the same
/// quantity.
proof fn lemma_finer_units(q: int, x: int, j: int)
    requires
        0 <= j,
    ensures
        ((q * pow2(j as nat)) * scale_up(x - j)) * scale_down(x) == (q * scale_up(x)) * scale_down(
            x - j,
        ),
        scale_down(x) > 0,
        scale_down(x - j) > 0,
{
    let p = pow2(j as nat) as int;
    let u1 = scale_up(x - j);
    let d1 = scale_down(x - j);
    let u0 = scale_up(x);
    let d0 = scale_down(x);
    lemma_pow2_pos(j as nat);
    if x < 0 {
        lemma_pow2_adds(j as nat, (-x) as nat);
        lemma_pow2_pos((-x) as nat);
        lemma_pow2_pos((j - x) as nat);
    } else if x - j < 0 {
        lemma_pow2_adds(x as nat, (j - x) as nat);
        lemma_pow2_pos((j - x) as nat);
    } else {
        lemma_pow2_adds(j as nat, (x - j) as nat);
    }
    assert(p * u1 * d0 == u0 * d1);
    assert(((q * p) * u1) * d0 == (q * u0) * d1) by (nonlinear_arith)
        requires
            p * u1 * d0 == u0 * d1,
    ;
}

/// Rounds exactly `q` units of 2^`x` steps to the nearest magnitude.
pub fn round_exact(q: u64, x: i32) -> (m: u32)
    requires
        1 <= q < 0x8000_0000_0000_0000,
        -900 <= x <= 1000,
    ensures
        rounds_to(q * scale_up(x as int), scale_down(x as int), m as int),
{
    if q < 0x200_0000 {
        let m = round_to_grid(q * 0x200_0000, true, x - 25);
        proof {
            lemma2_to64();
            lemma_finer_units(q as int, x as int, 25);
            lemma_rounding_of_equal_quotients(
                (q * 0x200_0000) * scale_up(x - 25),
                scale_down(x - 25),
                q * scale_up(x as int),
                scale_down(x as int),
                m as int,
            );
        }
        m
    } else {
        round_to_grid(q, true, x)
    }
}

/// A magnitude that is the rounding of everything strictly between `q` and
/// `q + 1` units is the rounding of a quotient that lies there.
pub proof fn lemma_bracket_rounds(q: int, x: int, m: int, n: int, d: int)
    requires
        rounds_bracket(q, false, x, m),
        d > 0,
        (q * scale_up(x)) * d < n * scale_down(x),
        n * scale_down(x) < ((q + 1) * scale_up(x)) * d,
    ensures
        rounds_to(n, d, m),
{
    let up = scale_up(x);
    let down = scale_down(x);
    lemma_scales(x, if x >= 0 { 0 } else { -x }, if x >= 0 { x } else { 0 });
    if m > 0 {
        let lo = lower_midpoint(m);
        assert(lo * d < 2 * n) by (nonlinear_arith)
            requires
                lo * down <= 2 * (q * up),
                (q * up) * d < n * down,
                d > 0,
                down > 0,
        {
            assert((lo * down) * d <= (2 * (q * up)) * d);
            assert((lo * d) * down < (2 * n) * down);
        }
    }
    if m < 0x7F80_0000 {
        let hi = upper_midpoint(m);
        assert(2 * n < hi * d) by (nonlinear_arith)
            requires
                2 * ((q + 1) * up) <= hi * down,
                n * down < ((q + 1) * up) * d,
                d > 0,
                down > 0,
        {
            assert((2 * ((q + 1) * up)) * d <= (hi * down) * d);
            assert((2 * n) * down < (hi * d) * down);
        }
    }
}

/// Splits a finite magnitude into a significand and an exponent:
/// the magnitude stands for `sig * 2^ex` steps.
pub fn unpack(m: u32) -> (r: (u64, i32))
    requires
        m < 0x7F80_0000,
    ensures
        grid(m as int) == r.0 * pow2(r.1 as nat),
        r.0 < 0x100_0000,
        0 <= r.1 <= 253,
        r.1 > 0 ==> 0x80_0000 <= r.0,
        r.0 == 0 <==> m == 0,
{
    let e: u32 = m / 0x80_0000;
    let f: u32 = m % 0x80_0000;
    if e == 0 {
        proof {
            lemma_grid_packed(0, f as int);
        }
        (f as u64, 0)
    } else {
        proof {
            lemma_grid_packed(e as int - 1, f as int + 0x80_0000);
        }
        ((f + 0x80_0000) as u64, (e - 1) as i32)
    }
}

} // verus!
