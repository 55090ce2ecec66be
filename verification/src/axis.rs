//! Vectors along an axis: where squaring neither overflows nor vanishes, the
//! root of the rounded square is the number itself, and normalisation gives
//! exactly the unit vector of the axis.
use crate::grid::{
    grid, lemma_grid_increases, lemma_grid_of_one, lemma_grid_packed, lemma_nearest_of_grid_point,
    lemma_nearest_zero, lemma_rounding_exists, lower_midpoint, nearest, rounds_to, upper_midpoint,
};
use crate::arith::lemma_square_of_zero;
use crate::root::{lemma_nearest_root, rounds_to_root};
use crate::single::Single;
use crate::vector::{length, normalized};
use vstd::arithmetic::power2::{
    lemma2_to64, lemma_pow2_adds, lemma_pow2_pos, lemma_pow2_unfold, pow2,
};
use vstd::prelude::*;

verus! {

/// The significand of a magnitude above the subnormal range, leading bit
/// included.
pub open spec fn significand(m: int) -> int {
    0x80_0000 + m % 0x80_0000
}

/// The size of one step of the significand of such a magnitude, in steps of
/// 2^-149.
pub open spec fn unit(m: int) -> int {
    pow2((m / 0x80_0000 - 1) as nat) as int
}

/// A magnitude above the subnormal range and its two neighbours, each as a
/// multiple of the unit. Below a power of two the grid is twice as fine.
pub proof fn lemma_neighbours(m: int)
    requires
        0x80_0000 <= m < 0x7F80_0000,
    ensures
        unit(m) > 0,
        0x80_0000 <= significand(m) < 0x100_0000,
        grid(m) == significand(m) * unit(m),
        grid(m + 1) == (significand(m) + 1) * unit(m),
        significand(m) > 0x80_0000 || m < 0x100_0000 ==> grid(m - 1) == (significand(m) - 1)
            * unit(m),
        significand(m) == 0x80_0000 && m >= 0x100_0000 ==> 2 * grid(m - 1) == 0xFF_FFFF * unit(m),
{
    let e = m / 0x80_0000 - 1;
    let sig = significand(m);
    lemma_pow2_pos(e as nat);
    lemma_grid_packed(e, sig);
    lemma_grid_packed(e, sig + 1);
    if sig > 0x80_0000 {
        lemma_grid_packed(e, sig - 1);
    } else if e == 0 {
        lemma_grid_packed(0, sig - 1);
    } else {
        lemma_grid_packed(e - 1, 0xFF_FFFF);
        lemma_pow2_unfold(e as nat);
        let h = pow2((e - 1) as nat) as int;
        assert(2 * (0xFF_FFFF * h) == 0xFF_FFFF * (2 * h)) by (nonlinear_arith);
    }
}

/// Above the subnormal range a magnitude lies within one part in 2^23 of
/// each of its neighbours.
pub proof fn lemma_gaps(m: int)
    requires
        0x80_0000 <= m < 0x7F80_0000,
    ensures
        (upper_midpoint(m) - 2 * grid(m)) * 0x80_0000 <= grid(m),
        (2 * grid(m) - lower_midpoint(m)) * 0x80_0000 <= grid(m),
        0 < grid(m),
{
    lemma_neighbours(m);
    let sig = significand(m);
    let u = unit(m);
    assert((sig + 1) * u == sig * u + u && (sig - 1) * u == sig * u - u) by (nonlinear_arith);
    assert(u * 0x80_0000 <= sig * u && 0 < sig * u) by (nonlinear_arith)
        requires
            0x80_0000 <= sig,
            u > 0,
    ;
}

/// The square of the lower midpoint of a significand lies below the square
/// of the significand by more than one part in 2^24, and the square of the
/// upper midpoint above it by more than that.
proof fn lemma_midpoint_squares(sig: int)
    requires
        0x80_0000 <= sig < 0x100_0000,
    ensures
        ((2 * sig - 1) * (2 * sig - 1)) * 0x100_0001 < 0x400_0000 * (sig * sig),
        0x400_0000 * (sig * sig) < ((2 * sig + 1) * (2 * sig + 1)) * 0xFF_FFFF,
        (0x1FF_FFFF * 0x1FF_FFFF) * 0x100_0001 < 0x1000_0000 * (0x80_0000 * 0x80_0000),
{
    let q = sig * sig;
    assert((2 * sig - 1) * (2 * sig - 1) == 4 * q - 4 * sig + 1) by (nonlinear_arith)
        requires
            q == sig * sig,
    ;
    assert((2 * sig + 1) * (2 * sig + 1) == 4 * q + 4 * sig + 1) by (nonlinear_arith)
        requires
            q == sig * sig,
    ;
    assert(0x80_0000 * sig <= q <= 0xFF_FFFF * sig) by (nonlinear_arith)
        requires
            q == sig * sig,
            0x80_0000 <= sig <= 0xFF_FFFF,
    ;
    assert((4 * q - 4 * sig + 1) * 0x100_0001 == 0x400_0004 * q - 0x400_0004 * sig + 0x100_0001);
    assert((4 * q + 4 * sig + 1) * 0xFF_FFFF == 0x3FF_FFFC * q + 0x3FF_FFFC * sig + 0xFF_FFFF);
}

/// Where a number and the rounding of its square both lie above the
/// subnormal range and below infinity, the number is the rounded root of
/// that rounding.
pub proof fn lemma_root_of_square(mx: int, my: int)
    requires
        0x80_0000 <= mx < 0x7F80_0000,
        0x80_0000 <= my < 0x7F80_0000,
        rounds_to(grid(mx) * grid(mx), pow2(149) as int, my),
    ensures
        rounds_to_root(grid(my) * pow2(149), mx),
{
    let s = grid(mx);
    let y = grid(my);
    let c = pow2(149) as int;
    let w = y * c;
    let sig = significand(mx);
    let u = unit(mx);
    let uu = u * u;
    let lo = lower_midpoint(mx);
    let hi = upper_midpoint(mx);
    lemma_pow2_pos(149);
    lemma_neighbours(mx);
    lemma_gaps(my);
    lemma_midpoint_squares(sig);
    // The rounded square lies within one part in 2^24 of the square.
    assert(0x100_0000 * (s * s) <= 0x100_0001 * w && 0xFF_FFFF * w <= 0x100_0000 * (s * s)) by {
        let hy = upper_midpoint(my);
        let ly = lower_midpoint(my);
        assert(hy * 0x80_0000 <= 0x100_0001 * y);
        assert(0xFF_FFFF * y <= ly * 0x80_0000);
        assert(2 * (s * s) <= hy * c);
        assert(ly * c <= 2 * (s * s));
        assert((hy * 0x80_0000) * c <= (0x100_0001 * y) * c) by (nonlinear_arith)
            requires
                hy * 0x80_0000 <= 0x100_0001 * y,
                c > 0,
        ;
        assert((0xFF_FFFF * y) * c <= (ly * 0x80_0000) * c) by (nonlinear_arith)
            requires
                0xFF_FFFF * y <= ly * 0x80_0000,
                c > 0,
        ;
        assert((hy * 0x80_0000) * c == 0x80_0000 * (hy * c) && (ly * 0x80_0000) * c == 0x80_0000
            * (ly * c) && (0x100_0001 * y) * c == 0x100_0001 * (y * c) && (0xFF_FFFF * y) * c
            == 0xFF_FFFF * (y * c)) by (nonlinear_arith);
    }
    assert(uu > 0) by (nonlinear_arith)
        requires
            uu == u * u,
            u > 0,
    ;
    assert(s * s == (sig * sig) * uu) by (nonlinear_arith)
        requires
            s == sig * u,
            uu == u * u,
    ;
    assert(hi * hi == ((2 * sig + 1) * (2 * sig + 1)) * uu) by (nonlinear_arith)
        requires
            hi == sig * u + (sig + 1) * u,
            uu == u * u,
    ;
    assert(0x400_0000 * (s * s) < (hi * hi) * 0xFF_FFFF) by (nonlinear_arith)
        requires
            s * s == (sig * sig) * uu,
            hi * hi == ((2 * sig + 1) * (2 * sig + 1)) * uu,
            0x400_0000 * (sig * sig) < ((2 * sig + 1) * (2 * sig + 1)) * 0xFF_FFFF,
            uu > 0,
    ;
    assert(4 * w < hi * hi);
    if significand(mx) > 0x80_0000 || mx < 0x100_0000 {
        assert(lo * lo == ((2 * sig - 1) * (2 * sig - 1)) * uu) by (nonlinear_arith)
            requires
                lo == (sig - 1) * u + sig * u,
                uu == u * u,
        ;
        assert((lo * lo) * 0x100_0001 < 0x400_0000 * (s * s)) by (nonlinear_arith)
            requires
                s * s == (sig * sig) * uu,
                lo * lo == ((2 * sig - 1) * (2 * sig - 1)) * uu,
                ((2 * sig - 1) * (2 * sig - 1)) * 0x100_0001 < 0x400_0000 * (sig * sig),
                uu > 0,
        ;
    } else {
        assert(4 * (lo * lo) == (0x1FF_FFFF * 0x1FF_FFFF) * uu) by (nonlinear_arith)
            requires
                2 * lo == 0xFF_FFFF * u + 2 * (0x80_0000 * u),
                uu == u * u,
        ;
        assert((4 * (lo * lo)) * 0x100_0001 < 0x1000_0000 * (s * s)) by (nonlinear_arith)
            requires
                s * s == (0x80_0000 * 0x80_0000) * uu,
                4 * (lo * lo) == (0x1FF_FFFF * 0x1FF_FFFF) * uu,
                uu > 0,
        ;
    }
    assert(lo * lo < 4 * w);
}

/// The square of a magnitude from 2^-63 up to, but not including, 2^64
/// rounds to a magnitude above the subnormal range and below infinity.
pub proof fn lemma_square_in_range(mx: int, my: int)
    requires
        0x2000_0000 <= mx < 0x5F80_0000,
        rounds_to(grid(mx) * grid(mx), pow2(149) as int, my),
    ensures
        0x80_0000 <= my < 0x7F80_0000,
{
    let s = grid(mx);
    let c = pow2(149) as int;
    lemma2_to64();
    if my < 0x80_0000 {
        let k = pow2(63) as int;
        let kk = pow2(126) as int;
        lemma_grid_packed(63, 0x80_0000);
        if mx > 0x2000_0000 {
            lemma_grid_increases(0x2000_0000, mx);
        }
        lemma_pow2_adds(63, 63);
        lemma_pow2_adds(23, 126);
        lemma_pow2_pos(126);
        lemma_pow2_pos(63);
        lemma_grid_packed(0, 0x7F_FFFF);
        lemma_grid_packed(0, 0x80_0000);
        if my < 0x7F_FFFF {
            lemma_grid_increases(my, 0x7F_FFFF);
            lemma_grid_increases(my + 1, 0x80_0000);
        }
        let hy = upper_midpoint(my);
        assert(hy <= 0xFF_FFFF);
        assert(s * s >= (0x80_0000 * 0x80_0000) * kk) by (nonlinear_arith)
            requires
                s >= 0x80_0000 * k,
                k > 0,
                kk == k * k,
        ;
        assert(hy * c < 2 * ((0x80_0000 * 0x80_0000) * kk)) by (nonlinear_arith)
            requires
                0 <= hy <= 0xFF_FFFF,
                c == 0x80_0000 * kk,
                kk > 0,
        ;
    } else if my == 0x7F80_0000 {
        let k = pow2(189) as int;
        let kk = pow2(378) as int;
        lemma_grid_packed(189, 0xFF_FFFF);
        if mx < 0x5F7F_FFFF {
            lemma_grid_increases(mx, 0x5F7F_FFFF);
        }
        lemma_grid_increases(0, mx);
        assert(grid(0) == 0);
        lemma_pow2_adds(189, 189);
        lemma_pow2_adds(24, 378);
        lemma_pow2_adds(253, 149);
        lemma_pow2_unfold(254);
        lemma_pow2_pos(378);
        lemma_pow2_pos(189);
        lemma_grid_packed(253, 0xFF_FFFF);
        lemma_grid_packed(253, 0x100_0000);
        let ly = lower_midpoint(my);
        let top = pow2(253) as int;
        assert(ly == 0x1FF_FFFF * top) by (nonlinear_arith)
            requires
                ly == 0xFF_FFFF * top + 0x100_0000 * top,
        ;
        assert(ly * c == (0x1FF_FFFF * 0x100_0000) * kk) by (nonlinear_arith)
            requires
                ly == 0x1FF_FFFF * top,
                top * c == 0x100_0000 * kk,
        ;
        assert(s * s <= (0xFF_FFFF * 0xFF_FFFF) * kk) by (nonlinear_arith)
            requires
                0 <= s <= 0xFF_FFFF * k,
                k > 0,
                kk == k * k,
        ;
        assert(2 * ((0xFF_FFFF * 0xFF_FFFF) * kk) < (0x1FF_FFFF * 0x100_0000) * kk)
            by (nonlinear_arith)
            requires
                kk > 0,
        ;
    }
}

impl Single {
    /// A number whose square neither overflows nor falls below the normal
    /// range: its magnitude lies from 2^-63 up to, but not including, 2^64.
    pub open spec fn squares_safely(self) -> bool {
        0x2000_0000 <= self.magnitude() < 0x5F80_0000
    }

    /// The number one.
    pub open spec fn one() -> Single {
        Single { bits: 0x3F80_0000 }
    }
}

/// The rounded square of a number that squares safely, with the square of
/// a zero added on either side, has the absolute value of the number as
/// its rounded root.
pub proof fn lemma_length_along_axis(x: Single, z: Single)
    requires
        x.squares_safely(),
        z.is_zero(),
    ensures
        length(seq![x, z]) == Single::compose(false, x.magnitude()),
        length(seq![z, x]) == Single::compose(false, x.magnitude()),
{
    let mx = x.magnitude() as int;
    let s = grid(mx);
    let c = pow2(149) as int;
    lemma_pow2_pos(149);
    lemma_grid_increases(0, mx);
    assert(grid(0) == 0);
    assert(0 <= s * s) by (nonlinear_arith);
    lemma_rounding_exists(s * s, c);
    let my = nearest(s * s, c);
    lemma_square_in_range(mx, my);
    let y = x.product(x);
    assert(y == Single { bits: my as u32 });
    assert(y.magnitude() == my);
    lemma_square_of_zero(z);
    lemma_nearest_of_grid_point(my, 1);
    lemma_gaps(my);
    assert(y.sum(Single::zero()) == y);
    assert(Single::zero().sum(y) == y);
    lemma_root_of_square(mx, my);
    lemma_nearest_root(grid(my) * c, mx);
    assert(seq![x, z][0] == x && seq![x, z][1] == z);
    assert(seq![z, x][0] == z && seq![z, x][1] == x);
}

/// A vector along an axis whose one component squares safely normalises to
/// the unit vector of that axis: one under the sign of the component, and a
/// zero under the sign of the zero.
pub proof fn lemma_normalized_along_axis(x: Single, z: Single)
    requires
        x.squares_safely(),
        z.is_zero(),
    ensures
        normalized(seq![x, z]) == seq![
            Single::compose(x.is_negative(), 0x3F80_0000),
            Single::compose(z.is_negative(), 0),
        ],
        normalized(seq![z, x]) == seq![
            Single::compose(z.is_negative(), 0),
            Single::compose(x.is_negative(), 0x3F80_0000),
        ],
{
    let mx = x.magnitude() as int;
    let s = grid(mx);
    let c = pow2(149) as int;
    lemma_length_along_axis(x, z);
    lemma_grid_increases(0, mx);
    assert(grid(0) == 0);
    lemma_grid_of_one();
    lemma_nearest_of_grid_point(0x3F80_0000, s);
    assert(s * c == c * s) by (nonlinear_arith);
    lemma_nearest_zero(s);
    assert(z.steps() * pow2(149) == 0) by (nonlinear_arith)
        requires
            z.steps() == 0,
    ;
    let len = Single::compose(false, x.magnitude());
    assert(len.steps() == s);
    assert(x.quotient(len) == Single::compose(x.is_negative(), 0x3F80_0000));
    assert(z.quotient(len) == Single::compose(z.is_negative(), 0));
    assert(seq![x, z][0] == x && seq![x, z][1] == z);
    assert(seq![z, x][0] == z && seq![z, x][1] == x);
}

/// A vector along an axis whose one component squares safely has, once
/// normalised, a length of exactly one.
pub proof fn lemma_unit_length_along_axis(x: Single, z: Single)
    requires
        x.squares_safely(),
        z.is_zero(),
    ensures
        length(normalized(seq![x, z])) == Single::one(),
        length(normalized(seq![z, x])) == Single::one(),
{
    lemma_normalized_along_axis(x, z);
    lemma_length_along_axis(
        Single::compose(x.is_negative(), 0x3F80_0000),
        Single::compose(z.is_negative(), 0),
    );
}

} // verus!
