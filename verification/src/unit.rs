//! The length of a normalised vector.
//!
//! Where the larger component of a vector lies from 2^-62 up to 2^63 in
//! magnitude, normalising it and measuring the result goes through ten
//! roundings. Those of the larger component stay in the normal range and
//! are within one rounding of the exact value; those of the smaller may
//! fall below it, and then weigh next to nothing. The length that comes
//! out is one of the ten representable values nearest to one.
use crate::arith::lemma_sum_commutes;
use crate::axis::lemma_square_in_range;
use crate::grid::{
    grid, lemma_grid_increases, lemma_grid_packed, lemma_rounding_at_least, lemma_rounding_at_most,
    lemma_rounding_exists, nearest,
};
use crate::root::{
    lemma_root_at_least, lemma_root_at_most, lemma_root_rounding_exists, nearest_root,
};
use crate::single::Single;
use crate::tolerance::{
    lemma_powers, lemma_root_is_within, lemma_rounding_below_normal, lemma_rounding_is_loose,
    lemma_rounding_is_within, lemma_squares_with_small_part, lemma_sum_with_small_part,
    lemma_within_chain, lemma_within_scale, lemma_within_square, lemma_within_weaken, loosely,
    within,
};
use crate::vector::{length, normalized};
use vstd::arithmetic::power::pow;
use vstd::arithmetic::power2::{
    lemma2_to64, lemma_pow2_adds, lemma_pow2_pos, lemma_pow2_strictly_increases, lemma_pow2_unfold,
    pow2,
};
use vstd::prelude::*;

verus! {

/// The pattern with exponent field `e` and no fraction stands for
/// 2^(`e` + 22) steps.
pub proof fn lemma_grid_of_power(e: int)
    requires
        1 <= e <= 255,
    ensures
        grid(e * 0x80_0000) == pow2((e + 22) as nat),
{
    lemma_grid_packed(e - 1, 0x80_0000);
    lemma2_to64();
    lemma_pow2_adds(23, (e - 1) as nat);
}

/// The steps of a magnitude between two patterns without fraction lie
/// between the powers of two that these stand for.
pub proof fn lemma_steps_between(m: int, e1: int, e2: int)
    requires
        1 <= e1 <= e2 <= 255,
        e1 * 0x80_0000 <= m <= e2 * 0x80_0000,
    ensures
        pow2((e1 + 22) as nat) <= grid(m) <= pow2((e2 + 22) as nat),
        m < e2 * 0x80_0000 ==> grid(m) < pow2((e2 + 22) as nat),
{
    lemma_grid_of_power(e1);
    lemma_grid_of_power(e2);
    if e1 * 0x80_0000 < m {
        lemma_grid_increases(e1 * 0x80_0000, m);
    }
    if m < e2 * 0x80_0000 {
        lemma_grid_increases(m, e2 * 0x80_0000);
    }
}

/// The steps of a magnitude up to a pattern without fraction do not exceed
/// the power of two that it stands for.
pub proof fn lemma_steps_up_to(m: int, e: int)
    requires
        1 <= e <= 255,
        0 <= m <= e * 0x80_0000,
    ensures
        0 <= grid(m) <= pow2((e + 22) as nat),
{
    lemma_grid_of_power(e);
    assert(grid(0) == 0);
    if 0 < m {
        lemma_grid_increases(0, m);
    }
    if m < e * 0x80_0000 {
        lemma_grid_increases(m, e * 0x80_0000);
    }
}

/// The square of a number from 2^-62 up to 2^63 is positive, lies from the
/// smallest normal value up to 2^126, and is within one rounding of the
/// exact square, which is at least 2^24 steps.
pub proof fn lemma_square_is_within(x: Single)
    requires
        0x2080_0000 <= x.magnitude() < 0x5F00_0000,
    ensures
        !x.product(x).is_negative(),
        0x80_0000 <= x.product(x).magnitude() <= 0x7E80_0000,
        within(x.product(x).steps() * pow2(149), x.steps() * x.steps(), 1),
        0x100_0000 * pow2(149) <= x.steps() * x.steps(),
{
    let mx = x.magnitude() as int;
    let s = grid(mx);
    let c = pow2(149) as int;
    lemma_pow2_pos(149);
    lemma_steps_between(mx, 65, 190);
    lemma_pow2_pos(87);
    assert(0 <= s * s) by (nonlinear_arith);
    lemma_rounding_exists(s * s, c);
    let m = nearest(s * s, c);
    lemma_square_in_range(mx, m);
    lemma_grid_of_power(253);
    lemma_pow2_adds(212, 212);
    lemma_pow2_adds(275, 149);
    let k = pow2(212) as int;
    assert(s * s <= k * k) by (nonlinear_arith)
        requires
            0 <= s <= k,
    ;
    lemma_rounding_at_most(s * s, c, m, 0x7E80_0000);
    lemma_rounding_is_within(s * s, c, m);
    assert(x.product(x) == Single { bits: m as u32 });
    lemma2_to64();
    lemma_pow2_adds(87, 87);
    lemma_pow2_adds(24, 149);
    lemma_pow2_strictly_increases(173, 174);
    let j = pow2(87) as int;
    assert(j * j <= s * s) by (nonlinear_arith)
        requires
            0 <= j <= s,
    ;
}

/// The square of a number below 2^63, however small, is not negative, lies
/// up to 2^126, and is within one rounding of the exact square or within
/// half a step of it.
pub proof fn lemma_square_is_loose(y: Single)
    requires
        y.magnitude() < 0x5F00_0000,
    ensures
        !y.product(y).is_negative(),
        y.product(y).magnitude() <= 0x7E80_0000,
        loosely(y.product(y).steps() * pow2(149), y.steps() * y.steps(), pow2(149) as int),
{
    let my = y.magnitude() as int;
    let s = grid(my);
    let c = pow2(149) as int;
    lemma_pow2_pos(149);
    lemma_steps_up_to(my, 190);
    assert(0 <= s * s) by (nonlinear_arith);
    lemma_rounding_exists(s * s, c);
    let m = nearest(s * s, c);
    lemma_grid_of_power(253);
    lemma_pow2_adds(212, 212);
    lemma_pow2_adds(275, 149);
    let k = pow2(212) as int;
    assert(s * s <= k * k) by (nonlinear_arith)
        requires
            0 <= s <= k,
    ;
    lemma_rounding_at_most(s * s, c, m, 0x7E80_0000);
    lemma_rounding_is_loose(s * s, c, m);
    assert(y.product(y) == Single { bits: m as u32 });
}

/// The sum of a positive number from the smallest normal value up to 2^126
/// and a number from zero up to 2^126 is positive, lies from the smallest
/// normal value up to 2^127, and is within one rounding of the exact sum.
pub proof fn lemma_sum_is_within(p: Single, q: Single)
    requires
        !p.is_negative(),
        !q.is_negative(),
        0x80_0000 <= p.magnitude() <= 0x7E80_0000,
        q.magnitude() <= 0x7E80_0000,
    ensures
        !p.sum(q).is_negative(),
        0x80_0000 <= p.sum(q).magnitude() <= 0x7F00_0000,
        within(p.sum(q).steps(), p.steps() + q.steps(), 1),
{
    let a = p.steps();
    let b = q.steps();
    lemma_steps_between(p.magnitude() as int, 1, 253);
    lemma_steps_up_to(q.magnitude() as int, 253);
    lemma_pow2_pos(23);
    lemma_rounding_exists(a + b, 1);
    let m = nearest(a + b, 1);
    lemma_rounding_at_least(a + b, 1, m, p.magnitude() as int);
    lemma_grid_of_power(254);
    lemma_pow2_unfold(276);
    lemma_rounding_at_most(a + b, 1, m, 0x7F00_0000);
    lemma_rounding_is_within(a + b, 1, m);
    assert(p.sum(q) == Single { bits: m as u32 });
}

/// The root of a positive number from the smallest normal value up to
/// 2^127 is positive, lies from 2^-63 up to 2^64, and has a square within
/// two roundings of the number.
pub proof fn lemma_root_is_within_range(s: Single)
    requires
        !s.is_negative(),
        0x80_0000 <= s.magnitude() <= 0x7F00_0000,
    ensures
        !s.root().is_negative(),
        0x2000_0000 <= s.root().magnitude() <= 0x5F80_0000,
        within(s.root().steps() * s.root().steps(), s.steps() * pow2(149), 2),
{
    let v = s.steps();
    let c = pow2(149) as int;
    let n = v * c;
    lemma_pow2_pos(149);
    lemma_steps_between(s.magnitude() as int, 1, 254);
    lemma_pow2_pos(23);
    assert(0 <= n) by (nonlinear_arith)
        requires
            n == v * c,
            0 <= v,
            0 <= c,
    ;
    lemma_root_rounding_exists(n);
    let m = nearest_root(n);
    lemma_grid_of_power(64);
    lemma_pow2_adds(86, 86);
    lemma_pow2_adds(23, 149);
    assert(pow2(23) * c <= n) by (nonlinear_arith)
        requires
            n == v * c,
            pow2(23) <= v,
            0 <= c,
    ;
    lemma_root_at_least(n, m, 0x2000_0000);
    lemma_grid_of_power(191);
    lemma_pow2_adds(213, 213);
    lemma_pow2_adds(276, 149);
    lemma_pow2_strictly_increases(425, 426);
    assert(n <= pow2(276) * c) by (nonlinear_arith)
        requires
            n == v * c,
            v <= pow2(276),
            0 <= c,
    ;
    lemma_root_at_most(n, m, 0x5F80_0000);
    lemma_root_is_within(n, m);
    assert(s.root() == Single { bits: m as u32 });
}

/// The length of a pair whose first component lies from 2^-62 up to 2^63
/// in magnitude and whose second lies below 2^63, however small, is
/// positive, lies from 2^-63 up to 2^64, and has a square within five
/// roundings of the exact sum of the squares.
pub proof fn lemma_length_is_within(x: Single, y: Single)
    requires
        0x2080_0000 <= x.magnitude() < 0x5F00_0000,
        y.magnitude() < 0x5F00_0000,
    ensures
        !length(seq![x, y]).is_negative(),
        0x2000_0000 <= length(seq![x, y]).magnitude() <= 0x5F80_0000,
        within(
            length(seq![x, y]).steps() * length(seq![x, y]).steps(),
            x.steps() * x.steps() + y.steps() * y.steps(),
            5,
        ),
{
    let c = pow2(149) as int;
    let xx = x.product(x);
    let yy = y.product(y);
    let sum = xx.sum(yy);
    let len = sum.root();
    assert(seq![x, y][0] == x && seq![x, y][1] == y);
    assert(length(seq![x, y]) == len);
    lemma_pow2_pos(149);
    lemma_square_is_within(x);
    lemma_square_is_loose(y);
    lemma_sum_is_within(xx, yy);
    lemma_root_is_within_range(sum);
    let a = xx.steps();
    let b = yy.steps();
    let exact = x.steps() * x.steps() + y.steps() * y.steps();
    lemma_sum_with_small_part(a * c, x.steps() * x.steps(), b * c, y.steps() * y.steps(), c);
    assert((a + b) * c == a * c + b * c) by (nonlinear_arith);
    lemma_steps_between(sum.magnitude() as int, 1, 254);
    lemma_steps_between(xx.magnitude() as int, 1, 253);
    lemma_steps_up_to(yy.magnitude() as int, 253);
    lemma_pow2_pos(23);
    lemma_within_scale(sum.steps(), a + b, c, 1);
    lemma_within_chain(sum.steps() * c, (a + b) * c, exact, 1, 2);
    lemma_within_chain(len.steps() * len.steps(), sum.steps() * c, exact, 2, 3);
}

/// The length of a pair does not depend on the order of its components.
pub proof fn lemma_length_commutes(x: Single, y: Single)
    ensures
        length(seq![x, y]) == length(seq![y, x]),
{
    lemma_sum_commutes(x.product(x), y.product(y));
    assert(seq![x, y][0] == x && seq![x, y][1] == y);
    assert(seq![y, x][0] == y && seq![y, x][1] == x);
}

/// A length whose square is within five roundings of the sum of two
/// squares, the first of them the larger, is at least half of the first
/// quantity and at most twice of it.
proof fn lemma_length_against_larger(sa: int, sb: int, l: int)
    requires
        0 <= sb <= sa,
        0 < sa,
        0 < l,
        within(l * l, sa * sa + sb * sb, 5),
    ensures
        sa <= 2 * l,
        l <= 2 * sa,
{
    let a5 = pow(0xFF_FFFF, 5);
    let b5 = pow(0x100_0000, 5);
    let ll = l * l;
    let aa = sa * sa;
    let bb = sb * sb;
    lemma_powers();
    assert(0 <= bb <= aa) by (nonlinear_arith)
        requires
            aa == sa * sa,
            bb == sb * sb,
            0 <= sb <= sa,
    ;
    assert(a5 * (aa + bb) <= b5 * ll && a5 * ll <= b5 * (aa + bb));
    assert(aa <= 4 * ll && ll <= 4 * aa) by (nonlinear_arith)
        requires
            a5 * (aa + bb) <= b5 * ll,
            a5 * ll <= b5 * (aa + bb),
            a5 == 0xFF_FFFB_0000_09FF_FFF6_0000_04FF_FFFF,
            b5 == 0x100_0000_0000_0000_0000_0000_0000_0000,
            0 <= bb <= aa,
            0 <= ll,
    ;
    assert((2 * l) * (2 * l) == 4 * ll && (2 * sa) * (2 * sa) == 4 * aa) by (nonlinear_arith)
        requires
            ll == l * l,
            aa == sa * sa,
    ;
    assert(sa <= 2 * l) by (nonlinear_arith)
        requires
            sa * sa <= (2 * l) * (2 * l),
            0 < sa,
            0 < l,
    ;
    assert(l <= 2 * sa) by (nonlinear_arith)
        requires
            l * l <= (2 * sa) * (2 * sa),
            0 < sa,
            0 < l,
    ;
}

/// The larger component, divided by a length between half and twice of
/// it, keeps its sign, lies from a half to two, and is within one rounding
/// of the exact quotient.
pub proof fn lemma_larger_quotient_is_within(x: Single, len: Single)
    requires
        0 < x.magnitude() < 0x7F80_0000,
        !len.is_negative(),
        0 < len.magnitude() < 0x7F80_0000,
        x.steps() <= 2 * len.steps(),
        len.steps() <= 2 * x.steps(),
    ensures
        x.quotient(len).is_negative() == x.is_negative(),
        0x3F00_0000 <= x.quotient(len).magnitude() <= 0x4000_0000,
        within(x.quotient(len).steps() * len.steps(), x.steps() * pow2(149), 1),
{
    let s = x.steps();
    let l = len.steps();
    let c = pow2(149) as int;
    let n = s * c;
    lemma_pow2_pos(149);
    lemma_grid_increases(0, x.magnitude() as int);
    lemma_grid_increases(0, len.magnitude() as int);
    assert(grid(0) == 0);
    assert(0 <= n) by (nonlinear_arith)
        requires
            n == s * c,
            0 <= s,
            0 <= c,
    ;
    lemma_rounding_exists(n, l);
    let m = nearest(n, l);
    lemma_grid_of_power(126);
    lemma_grid_of_power(128);
    lemma_pow2_unfold(149);
    lemma_pow2_unfold(150);
    assert(pow2(148) * l <= n && n <= pow2(150) * l) by (nonlinear_arith)
        requires
            n == s * c,
            s <= 2 * l,
            l <= 2 * s,
            c == 2 * pow2(148),
            pow2(150) == 2 * c,
            0 <= c,
    {
        assert(s * c <= (2 * l) * c);
        assert(l * pow2(148) <= (2 * s) * pow2(148));
    }
    lemma_rounding_at_least(n, l, m, 0x3F00_0000);
    lemma_rounding_at_most(n, l, m, 0x4000_0000);
    lemma_rounding_is_within(n, l, m);
    assert(x.quotient(len) == Single::compose(x.is_negative(), m as u32));
}

/// The smaller component, however small, divided by a length that is at
/// least half the larger, keeps its sign, lies up to two, and is within
/// one rounding of the exact quotient or, in steps, below 2^23.
pub proof fn lemma_smaller_quotient_is_loose(y: Single, len: Single)
    requires
        y.magnitude() < 0x7F80_0000,
        !len.is_negative(),
        0 < len.magnitude() < 0x7F80_0000,
        y.steps() <= 2 * len.steps(),
    ensures
        y.quotient(len).is_negative() == y.is_negative(),
        y.quotient(len).magnitude() <= 0x4000_0000,
        ({
            let r = y.quotient(len).steps() * len.steps();
            let w = y.steps() * pow2(149);
            within(r, w, 1) || (0 <= r <= 0x80_0000 * len.steps() && 0 <= w <= 0x80_0001
                * len.steps())
        }),
{
    let s = y.steps();
    let l = len.steps();
    let c = pow2(149) as int;
    let n = s * c;
    lemma_pow2_pos(149);
    assert(grid(0) == 0);
    if y.magnitude() > 0 {
        lemma_grid_increases(0, y.magnitude() as int);
    }
    lemma_grid_increases(0, len.magnitude() as int);
    assert(0 <= n) by (nonlinear_arith)
        requires
            n == s * c,
            0 <= s,
            0 <= c,
    ;
    lemma_rounding_exists(n, l);
    let m = nearest(n, l);
    lemma_grid_of_power(128);
    lemma_pow2_unfold(150);
    assert(n <= pow2(150) * l) by (nonlinear_arith)
        requires
            n == s * c,
            s <= 2 * l,
            pow2(150) == 2 * c,
            0 <= c,
    {
        assert(s * c <= (2 * l) * c);
    }
    lemma_rounding_at_most(n, l, m, 0x4000_0000);
    assert(y.quotient(len) == Single::compose(y.is_negative(), m as u32));
    if m >= 0x80_0000 {
        lemma_rounding_is_within(n, l, m);
    } else {
        lemma_rounding_below_normal(n, l, m);
        assert(0 <= m * l <= 0x80_0000 * l) by (nonlinear_arith)
            requires
                0 <= m < 0x80_0000,
                0 < l,
        ;
    }
}

/// A magnitude whose steps are within seven roundings of those of one
/// lies from six patterns below one to three patterns above it.
pub proof fn lemma_patterns_near_one(m: int)
    requires
        0 <= m,
        within(grid(m), pow2(149) as int, 7),
    ensures
        0x3F7F_FFFA <= m <= 0x3F80_0003,
{
    let a7 = pow(0xFF_FFFF, 7);
    let b7 = pow(0x100_0000, 7);
    let g = grid(m);
    lemma_powers();
    lemma2_to64();
    if m >= 0x3F80_0004 {
        let u = pow2(126) as int;
        lemma_grid_packed(126, 0x80_0004);
        lemma_pow2_adds(23, 126);
        lemma_pow2_pos(126);
        if m > 0x3F80_0004 {
            lemma_grid_increases(0x3F80_0004, m);
        }
        assert(b7 * (0x80_0000 * u) < a7 * g) by (nonlinear_arith)
            requires
                a7 == 0xFF_FFF9_0000_14FF_FFDD_0000_22FF_FFEB_0000_06FF_FFFF,
                b7 == 0x100_0000_0000_0000_0000_0000_0000_0000_0000_0000_0000,
                g >= 0x80_0004 * u,
                u > 0,
        {
            assert(a7 * (0x80_0004 * u) <= a7 * g);
            assert(b7 * (0x80_0000 * u) == (b7 * 0x80_0000) * u);
            assert(a7 * (0x80_0004 * u) == (a7 * 0x80_0004) * u);
            assert(b7 * 0x80_0000 < a7 * 0x80_0004);
        }
    }
    if m <= 0x3F7F_FFF9 {
        let h = pow2(125) as int;
        lemma_grid_packed(125, 0xFF_FFF9);
        lemma_pow2_adds(24, 125);
        lemma_pow2_pos(125);
        if m < 0x3F7F_FFF9 {
            lemma_grid_increases(m, 0x3F7F_FFF9);
        }
        assert(b7 * g < a7 * (0x100_0000 * h)) by (nonlinear_arith)
            requires
                a7 == 0xFF_FFF9_0000_14FF_FFDD_0000_22FF_FFEB_0000_06FF_FFFF,
                b7 == 0x100_0000_0000_0000_0000_0000_0000_0000_0000_0000_0000,
                0 <= g <= 0xFF_FFF9 * h,
                h > 0,
        {
            assert(b7 * g <= b7 * (0xFF_FFF9 * h));
            assert(b7 * (0xFF_FFF9 * h) == (b7 * 0xFF_FFF9) * h);
            assert(a7 * (0x100_0000 * h) == (a7 * 0x100_0000) * h);
            assert(b7 * 0xFF_FFF9 < a7 * 0x100_0000);
        }
    }
}

/// The unit-length law for a pair whose first component is the larger.
proof fn lemma_unit_length_ordered(a: Single, b: Single)
    requires
        b.magnitude() <= a.magnitude(),
        0x2080_0000 <= a.magnitude() < 0x5F00_0000,
    ensures
        ({
            let len = length(seq![a, b]);
            let unit = length(seq![a.quotient(len), b.quotient(len)]);
            &&& !len.is_zero()
            &&& !unit.is_negative()
            &&& 0x3F7F_FFFA <= unit.magnitude() <= 0x3F80_0003
        }),
{
    let c = pow2(149) as int;
    let sa = a.steps();
    let sb = b.steps();
    let len = length(seq![a, b]);
    let l = len.steps();
    lemma_pow2_pos(149);
    lemma2_to64();
    lemma_pow2_strictly_increases(64, 149);
    assert(grid(0) == 0);
    lemma_grid_increases(0, a.magnitude() as int);
    if b.magnitude() > 0 {
        lemma_grid_increases(0, b.magnitude() as int);
    }
    if b.magnitude() < a.magnitude() {
        lemma_grid_increases(b.magnitude() as int, a.magnitude() as int);
    }
    lemma_length_is_within(a, b);
    lemma_grid_increases(0, len.magnitude() as int);
    lemma_length_against_larger(sa, sb, l);
    let n0 = a.quotient(len);
    let n1 = b.quotient(len);
    lemma_larger_quotient_is_within(a, len);
    lemma_smaller_quotient_is_loose(b, len);
    let s0 = n0.steps();
    let s1 = n1.steps();
    lemma_grid_increases(0, n0.magnitude() as int);
    if n1.magnitude() > 0 {
        lemma_grid_increases(0, n1.magnitude() as int);
    }
    // Both quotients, times the length, against the components.
    let ll = l * l;
    let cc = c * c;
    let exact = sa * sa + sb * sb;
    let got = s0 * s0 + s1 * s1;
    assert(l * c <= 2 * (sa * c)) by (nonlinear_arith)
        requires
            l <= 2 * sa,
            0 < c,
    ;
    lemma_squares_with_small_part(s0 * l, sa * c, s1 * l, sb * c, l, c);
    assert((s0 * l) * (s0 * l) + (s1 * l) * (s1 * l) == got * ll) by (nonlinear_arith)
        requires
            got == s0 * s0 + s1 * s1,
            ll == l * l,
    ;
    assert((sa * c) * (sa * c) + (sb * c) * (sb * c) == exact * cc) by (nonlinear_arith)
        requires
            exact == sa * sa + sb * sb,
            cc == c * c,
    ;
    assert(within(got * ll, exact * cc, 3));
    assert(0 < exact && 0 < got && 0 < ll && 0 < cc) by (nonlinear_arith)
        requires
            exact == sa * sa + sb * sb,
            got == s0 * s0 + s1 * s1,
            ll == l * l,
            cc == c * c,
            0 < sa,
            0 <= sb,
            0 < s0,
            0 <= s1,
            0 < l,
            0 < c,
    ;
    // The length against the components.
    assert(within(exact, ll, 5));
    lemma_within_scale(exact, ll, cc, 5);
    lemma_within_chain(got * ll, exact * cc, ll * cc, 3, 5);
    assert(ll * cc == cc * ll) by (nonlinear_arith);
    lemma_within_scale(got, cc, ll, 8);
    assert(within(got, cc, 8));
    // The length of the quotients against one.
    let unit = length(seq![n0, n1]);
    let u = unit.steps();
    lemma_length_is_within(n0, n1);
    lemma_grid_increases(0, unit.magnitude() as int);
    lemma_within_chain(u * u, got, cc, 5, 8);
    lemma_within_weaken(u * u, cc, 13, 14);
    lemma_within_square(u, c, 7);
    lemma_patterns_near_one(unit.magnitude() as int);
}

/// A vector that normalisation can measure: its larger component lies
/// from 2^-62 up to, but not including, 2^63 in magnitude. The smaller may
/// be anything down to zero.
pub open spec fn is_measurable(v: Seq<Single>) -> bool {
    let larger = if v[0].magnitude() >= v[1].magnitude() {
        v[0].magnitude()
    } else {
        v[1].magnitude()
    };
    0x2080_0000 <= larger < 0x5F00_0000
}

/// A vector that normalisation can measure has, once normalised, a length
/// of one within rounding: a positive number from six representable values
/// below one to three above it, that is from 1 - 6 * 2^-24 to 1 + 3 * 2^-23.
pub proof fn lemma_unit_length(v: Seq<Single>)
    requires
        is_measurable(v),
    ensures
        !length(normalized(v)).is_negative(),
        0x3F7F_FFFA <= length(normalized(v)).magnitude() <= 0x3F80_0003,
{
    let a = v[0];
    let b = v[1];
    assert(seq![a, b][0] == a && seq![a, b][1] == b);
    let len = length(v);
    assert(len == length(seq![a, b]));
    let n0 = a.quotient(len);
    let n1 = b.quotient(len);
    if a.magnitude() >= b.magnitude() {
        lemma_unit_length_ordered(a, b);
    } else {
        lemma_length_commutes(a, b);
        lemma_unit_length_ordered(b, a);
        lemma_length_commutes(n0, n1);
    }
    assert(normalized(v) =~= seq![n0, n1]);
    assert(seq![n0, n1][0] == n0 && seq![n0, n1][1] == n1);
    assert(length(normalized(v)) == length(seq![n0, n1]));
}

} // verus!
