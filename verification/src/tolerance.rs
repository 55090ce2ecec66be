//! How far rounding moves a quantity.
//!
//! Two positive quantities are close where each is at most `hi / lo` times
//! the other. A rounding above the subnormal range is close to what it
//! rounds, with 2^24 - 1 for `lo` and 2^24 for `hi`; the bounds of a chain
//! of roundings multiply.
use crate::axis::lemma_gaps;
use crate::grid::{
    grid, lemma_grid_increases, lemma_grid_packed, lemma_grid_step, lower_midpoint, rounds_to,
    upper_midpoint,
};
use vstd::arithmetic::power2::{lemma2_to64, pow2};
use crate::root::rounds_to_root;
use vstd::arithmetic::power::{lemma_pow1, lemma_pow_adds, lemma_pow_positive, pow};
use vstd::prelude::*;

verus! {

/// `p` and `q` are positive, and each is at most `hi / lo` times the other.
pub open spec fn close(p: int, q: int, lo: int, hi: int) -> bool {
    &&& 0 < p
    &&& 0 < q
    &&& lo * p <= hi * q
    &&& lo * q <= hi * p
}

/// Closeness to a common quantity makes close, with the bounds multiplied.
pub proof fn lemma_close_chain(p: int, q: int, r: int, lo1: int, hi1: int, lo2: int, hi2: int)
    requires
        close(p, q, lo1, hi1),
        close(q, r, lo2, hi2),
        0 < lo1,
        0 < lo2,
        0 < hi1,
        0 < hi2,
    ensures
        close(p, r, lo1 * lo2, hi1 * hi2),
{
    assert((lo1 * lo2) * p <= (hi1 * hi2) * r) by (nonlinear_arith)
        requires
            lo1 * p <= hi1 * q,
            lo2 * q <= hi2 * r,
            0 < lo2,
            0 < hi1,
    {
        assert((lo1 * p) * lo2 <= (hi1 * q) * lo2);
        assert((lo2 * q) * hi1 <= (hi2 * r) * hi1);
    }
    assert((lo1 * lo2) * r <= (hi1 * hi2) * p) by (nonlinear_arith)
        requires
            lo1 * q <= hi1 * p,
            lo2 * r <= hi2 * q,
            0 < lo1,
            0 < hi2,
    {
        assert((lo2 * r) * lo1 <= (hi2 * q) * lo1);
        assert((lo1 * q) * hi2 <= (hi1 * p) * hi2);
    }
}

/// Sums of close quantities are close.
pub proof fn lemma_close_sum(p1: int, q1: int, p2: int, q2: int, lo: int, hi: int)
    requires
        close(p1, q1, lo, hi),
        close(p2, q2, lo, hi),
    ensures
        close(p1 + p2, q1 + q2, lo, hi),
{
    assert(lo * (p1 + p2) == lo * p1 + lo * p2 && hi * (q1 + q2) == hi * q1 + hi * q2 && lo * (q1
        + q2) == lo * q1 + lo * q2 && hi * (p1 + p2) == hi * p1 + hi * p2) by (nonlinear_arith);
}

/// A common positive factor does not change closeness.
pub proof fn lemma_close_scale(p: int, q: int, c: int, lo: int, hi: int)
    requires
        0 < c,
        0 < p,
        0 < q,
    ensures
        close(p * c, q * c, lo, hi) <==> close(p, q, lo, hi),
{
    assert(0 < p * c && 0 < q * c) by (nonlinear_arith)
        requires
            0 < c,
            0 < p,
            0 < q,
    ;
    assert(lo * (p * c) == (lo * p) * c && hi * (q * c) == (hi * q) * c && lo * (q * c) == (lo * q)
        * c && hi * (p * c) == (hi * p) * c) by (nonlinear_arith);
    assert(((lo * p) * c <= (hi * q) * c) <==> (lo * p <= hi * q)) by (nonlinear_arith)
        requires
            0 < c,
    ;
    assert(((lo * q) * c <= (hi * p) * c) <==> (lo * q <= hi * p)) by (nonlinear_arith)
        requires
            0 < c,
    ;
}

/// The squares of close quantities are close, with the bounds squared; and
/// the other way round.
pub proof fn lemma_close_square(p: int, q: int, lo: int, hi: int)
    requires
        0 < p,
        0 < q,
        0 < lo,
        0 < hi,
    ensures
        close(p * p, q * q, lo * lo, hi * hi) <==> close(p, q, lo, hi),
{
    assert(0 < p * p && 0 < q * q) by (nonlinear_arith)
        requires
            0 < p,
            0 < q,
    ;
    assert((lo * lo) * (p * p) == (lo * p) * (lo * p) && (hi * hi) * (q * q) == (hi * q) * (hi * q)
        && (lo * lo) * (q * q) == (lo * q) * (lo * q) && (hi * hi) * (p * p) == (hi * p) * (hi
        * p)) by (nonlinear_arith);
    lemma_square_order(lo * p, hi * q);
    lemma_square_order(lo * q, hi * p);
    assert(0 <= lo * p && 0 <= hi * q && 0 <= lo * q && 0 <= hi * p) by (nonlinear_arith)
        requires
            0 < p,
            0 < q,
            0 < lo,
            0 < hi,
    ;
}

/// Squaring keeps the order of numbers that are not negative.
proof fn lemma_square_order(a: int, b: int)
    by (nonlinear_arith)
    ensures
        0 <= a && 0 <= b ==> (a <= b <==> a * a <= b * b),
{
}

/// A rounding above the subnormal range and below infinity is close to the
/// quotient that it rounds.
pub proof fn lemma_rounding_is_close(n: int, d: int, m: int)
    requires
        d > 0,
        0x80_0000 <= m < 0x7F80_0000,
        rounds_to(n, d, m),
    ensures
        close(grid(m) * d, n, 0xFF_FFFF, 0x100_0000),
{
    let y = grid(m);
    let hy = upper_midpoint(m);
    let ly = lower_midpoint(m);
    let r = y * d;
    lemma_gaps(m);
    assert(0xFF_FFFF * y <= ly * 0x80_0000);
    assert(hy * 0x80_0000 <= 0x100_0001 * y);
    assert(ly * d <= 2 * n && 2 * n <= hy * d);
    assert(0 < r) by (nonlinear_arith)
        requires
            r == y * d,
            0 < y,
            0 < d,
    ;
    assert(0xFF_FFFF * r <= 0x100_0000 * n) by (nonlinear_arith)
        requires
            r == y * d,
            0xFF_FFFF * y <= ly * 0x80_0000,
            ly * d <= 2 * n,
            d > 0,
    {
        assert((0xFF_FFFF * y) * d <= (ly * 0x80_0000) * d);
        assert((ly * 0x80_0000) * d == 0x80_0000 * (ly * d));
    }
    assert(0x100_0000 * n <= 0x100_0001 * r) by (nonlinear_arith)
        requires
            r == y * d,
            hy * 0x80_0000 <= 0x100_0001 * y,
            2 * n <= hy * d,
            d > 0,
    {
        assert((hy * 0x80_0000) * d <= (0x100_0001 * y) * d);
        assert((hy * 0x80_0000) * d == 0x80_0000 * (hy * d));
    }
    assert(0 < n);
    assert(0xFF_FFFF * n <= 0x100_0000 * r);
}

/// A rounded root above the subnormal range and below infinity has a
/// square close to what the root was taken of.
pub proof fn lemma_root_is_close(n: int, m: int)
    requires
        0x80_0000 <= m < 0x7F80_0000,
        rounds_to_root(n, m),
    ensures
        close(grid(m) * grid(m), n, 0xFF_FFFFint * 0xFF_FFFFint, 0x100_0000int * 0x100_0000int),
{
    let y = grid(m);
    let hy = upper_midpoint(m);
    let ly = lower_midpoint(m);
    let yy = y * y;
    lemma_gaps(m);
    lemma_grid_step(m);
    lemma_grid_step(m - 1);
    lemma_grid_increases(0, m - 1);
    assert(grid(0) == 0);
    assert(0 <= ly && 0 <= hy);
    assert(ly * ly <= 4 * n && 4 * n <= hy * hy);
    assert(0 < yy) by (nonlinear_arith)
        requires
            yy == y * y,
            0 < y,
    ;
    lemma_square_order(0xFF_FFFF * y, ly * 0x80_0000);
    lemma_square_order(hy * 0x80_0000, 0x100_0001 * y);
    assert((0xFF_FFFF * y) * (0xFF_FFFF * y) == 0xFFFF_FE00_0001 * yy && (0x100_0001 * y) * (
    0x100_0001 * y) == 0x1_0000_0200_0001 * yy) by (nonlinear_arith)
        requires
            yy == y * y,
    ;
    assert((ly * 0x80_0000) * (ly * 0x80_0000) == 0x4000_0000_0000 * (ly * ly) && (hy * 0x80_0000)
        * (hy * 0x80_0000) == 0x4000_0000_0000 * (hy * hy)) by (nonlinear_arith);
    assert(0 < ly * ly) by (nonlinear_arith)
        requires
            0 < ly,
    ;
    assert(0xFFFF_FE00_0001 * yy <= 0x1_0000_0000_0000 * n);
    assert(0x1_0000_0000_0000 * n <= 0x1_0000_0200_0001 * yy);
    assert(0xFFFF_FE00_0001 * n <= 0x1_0000_0000_0000 * yy);
    assert(0xFF_FFFFint * 0xFF_FFFFint == 0xFFFF_FE00_0001 && 0x100_0000int * 0x100_0000int
        == 0x1_0000_0000_0000);
}

/// `p` and `q` are as close as `k` roundings in a row can leave them: each
/// is at most (2^24 / (2^24 - 1))^`k` times the other.
pub open spec fn within(p: int, q: int, k: nat) -> bool {
    close(p, q, pow(0xFF_FFFF, k), pow(0x100_0000, k))
}

/// Closeness to a common quantity makes close, with the counts added.
pub proof fn lemma_within_chain(p: int, q: int, r: int, j: nat, k: nat)
    requires
        within(p, q, j),
        within(q, r, k),
    ensures
        within(p, r, j + k),
{
    lemma_pow_positive(0xFF_FFFF, j);
    lemma_pow_positive(0xFF_FFFF, k);
    lemma_pow_positive(0x100_0000, j);
    lemma_pow_positive(0x100_0000, k);
    lemma_pow_adds(0xFF_FFFF, j, k);
    lemma_pow_adds(0x100_0000, j, k);
    lemma_close_chain(
        p,
        q,
        r,
        pow(0xFF_FFFF, j),
        pow(0x100_0000, j),
        pow(0xFF_FFFF, k),
        pow(0x100_0000, k),
    );
}

/// Sums of close quantities are close.
pub proof fn lemma_within_sum(p1: int, q1: int, p2: int, q2: int, k: nat)
    requires
        within(p1, q1, k),
        within(p2, q2, k),
    ensures
        within(p1 + p2, q1 + q2, k),
{
    lemma_close_sum(p1, q1, p2, q2, pow(0xFF_FFFF, k), pow(0x100_0000, k));
}

/// A common positive factor does not change closeness.
pub proof fn lemma_within_scale(p: int, q: int, c: int, k: nat)
    requires
        0 < c,
        0 < p,
        0 < q,
    ensures
        within(p * c, q * c, k) <==> within(p, q, k),
{
    lemma_close_scale(p, q, c, pow(0xFF_FFFF, k), pow(0x100_0000, k));
}

/// The squares of close quantities are close at twice the count, and the
/// other way round.
pub proof fn lemma_within_square(p: int, q: int, k: nat)
    requires
        0 < p,
        0 < q,
    ensures
        within(p * p, q * q, 2 * k) <==> within(p, q, k),
{
    lemma_pow_positive(0xFF_FFFF, k);
    lemma_pow_positive(0x100_0000, k);
    lemma_pow_adds(0xFF_FFFF, k, k);
    lemma_pow_adds(0x100_0000, k, k);
    lemma_close_square(p, q, pow(0xFF_FFFF, k), pow(0x100_0000, k));
}

/// A rounding above the subnormal range and below infinity is within one
/// rounding of the quotient that it rounds.
pub proof fn lemma_rounding_is_within(n: int, d: int, m: int)
    requires
        d > 0,
        0x80_0000 <= m < 0x7F80_0000,
        rounds_to(n, d, m),
    ensures
        within(grid(m) * d, n, 1),
{
    lemma_pow1(0xFF_FFFF);
    lemma_pow1(0x100_0000);
    lemma_rounding_is_close(n, d, m);
}

/// The square of a rounded root above the subnormal range and below
/// infinity is within two roundings of what the root was taken of.
pub proof fn lemma_root_is_within(n: int, m: int)
    requires
        0x80_0000 <= m < 0x7F80_0000,
        rounds_to_root(n, m),
    ensures
        within(grid(m) * grid(m), n, 2),
{
    lemma_pow1(0xFF_FFFF);
    lemma_pow1(0x100_0000);
    lemma_pow_adds(0xFF_FFFF, 1, 1);
    lemma_pow_adds(0x100_0000, 1, 1);
    lemma_root_is_close(n, m);
}

/// The powers of the lower bound do not exceed those of the upper.
pub proof fn lemma_bounds_ordered(k: nat)
    ensures
        0 < pow(0xFF_FFFF, k) <= pow(0x100_0000, k),
    decreases k,
{
    lemma_pow_positive(0xFF_FFFF, k);
    if k == 0 {
        vstd::arithmetic::power::lemma_pow0(0xFF_FFFF);
        vstd::arithmetic::power::lemma_pow0(0x100_0000);
    } else {
        lemma_bounds_ordered((k - 1) as nat);
        lemma_pow1(0xFF_FFFF);
        lemma_pow1(0x100_0000);
        lemma_pow_adds(0xFF_FFFF, 1, (k - 1) as nat);
        lemma_pow_adds(0x100_0000, 1, (k - 1) as nat);
        let a = pow(0xFF_FFFF, (k - 1) as nat);
        let b = pow(0x100_0000, (k - 1) as nat);
        assert(0xFF_FFFF * a <= 0x100_0000 * b) by (nonlinear_arith)
            requires
                0 < a <= b,
        ;
    }
}

/// What is close at one count is close at every larger one.
pub proof fn lemma_within_weaken(p: int, q: int, j: nat, k: nat)
    requires
        within(p, q, j),
        j <= k,
    ensures
        within(p, q, k),
{
    let i = (k - j) as nat;
    lemma_bounds_ordered(i);
    assert(within(q, q, i)) by (nonlinear_arith)
        requires
            0 < q,
            0 < pow(0xFF_FFFF, i) <= pow(0x100_0000, i),
    ;
    lemma_within_chain(p, q, q, j, i);
}

/// `q` is within one rounding of `n`, or within half of `c`: what a
/// rounding that may fall below the normal range is to what it rounds,
/// where `c` is the size of one step.
pub open spec fn loosely(q: int, n: int, c: int) -> bool {
    &&& 0 <= q
    &&& 0 <= n
    &&& 2 * (0xFF_FFFF * q) <= 2 * (0x100_0000 * n) + 0x100_0000 * c
    &&& 2 * (0xFF_FFFF * n) <= 2 * (0x100_0000 * q) + 0x100_0000 * c
}

/// A rounding below the normal range stands for as many steps as its
/// pattern says and is within half a step of the quotient that it rounds.
pub proof fn lemma_rounding_below_normal(n: int, d: int, m: int)
    requires
        d > 0,
        0 <= n,
        0 <= m < 0x80_0000,
        rounds_to(n, d, m),
    ensures
        grid(m) == m,
        2 * (m * d) <= 2 * n + d,
        2 * n <= 2 * (m * d) + d,
{
    lemma_grid_packed(0, m);
    lemma_grid_packed(0, m + 1);
    lemma2_to64();
    assert(grid(m) == m && grid(m + 1) == m + 1) by (nonlinear_arith)
        requires
            grid(m) == m * pow2(0),
            grid(m + 1) == (m + 1) * pow2(0),
            pow2(0) == 1,
    ;
    assert((2 * m + 1) * d == 2 * (m * d) + d && (2 * m - 1) * d == 2 * (m * d) - d)
        by (nonlinear_arith);
    let hi = upper_midpoint(m);
    assert(hi * d == (2 * m + 1) * d);
    if m > 0 {
        lemma_grid_packed(0, m - 1);
        assert(grid(m - 1) == m - 1) by (nonlinear_arith)
            requires
                grid(m - 1) == (m - 1) * pow2(0),
                pow2(0) == 1,
        ;
        let lo = lower_midpoint(m);
        assert(lo * d == (2 * m - 1) * d);
    } else {
        assert(m * d == 0) by (nonlinear_arith)
            requires
                m == 0,
        ;
    }
}

/// A finite rounding is within one rounding of the quotient that it
/// rounds, or within half a step of it.
pub proof fn lemma_rounding_is_loose(n: int, d: int, m: int)
    requires
        d > 0,
        0 <= n,
        0 <= m < 0x7F80_0000,
        rounds_to(n, d, m),
    ensures
        loosely(grid(m) * d, n, d),
{
    if m >= 0x80_0000 {
        lemma_rounding_is_close(n, d, m);
    } else {
        lemma_rounding_below_normal(n, d, m);
        assert(0 <= m * d) by (nonlinear_arith)
            requires
                0 <= m,
                0 < d,
        ;
    }
}

/// The sum of a part within one rounding and a part that is only loosely
/// near, where the first part is at least 2^24 steps, is within two
/// roundings of the exact sum.
pub proof fn lemma_sum_with_small_part(ac: int, x2: int, bc: int, y2: int, c: int)
    requires
        within(ac, x2, 1),
        loosely(bc, y2, c),
        0 < c,
        0x100_0000 * c <= x2,
    ensures
        within(ac + bc, x2 + y2, 2),
{
    lemma_pow1(0xFF_FFFF);
    lemma_pow1(0x100_0000);
    lemma_pow_adds(0xFF_FFFF, 1, 1);
    lemma_pow_adds(0x100_0000, 1, 1);
    assert(pow(0xFF_FFFF, 2) == 0xFFFF_FE00_0001);
    assert(pow(0x100_0000, 2) == 0x1_0000_0000_0000);
}

/// The powers of the two bounds, written out.
pub proof fn lemma_powers()
    ensures
        pow(0xFF_FFFF, 1) == 0xFF_FFFF,
        pow(0x100_0000, 1) == 0x100_0000,
        pow(0xFF_FFFF, 2) == 0xFFFF_FE00_0001,
        pow(0x100_0000, 2) == 0x1_0000_0000_0000,
        pow(0xFF_FFFF, 3) == 0xFF_FFFD_0000_02FF_FFFF,
        pow(0x100_0000, 3) == 0x100_0000_0000_0000_0000,
        pow(0xFF_FFFF, 4) == 0xFFFF_FC00_0005_FFFF_FC00_0001,
        pow(0x100_0000, 4) == 0x1_0000_0000_0000_0000_0000_0000,
        pow(0xFF_FFFF, 5) == 0xFF_FFFB_0000_09FF_FFF6_0000_04FF_FFFF,
        pow(0x100_0000, 5) == 0x100_0000_0000_0000_0000_0000_0000_0000,
        pow(0xFF_FFFF, 7) == 0xFF_FFF9_0000_14FF_FFDD_0000_22FF_FFEB_0000_06FF_FFFF,
        pow(0x100_0000, 7) == 0x100_0000_0000_0000_0000_0000_0000_0000_0000_0000_0000,
{
    lemma_pow_adds(0xFF_FFFF, 4, 3);
    lemma_pow_adds(0x100_0000, 4, 3);
    lemma_pow1(0xFF_FFFF);
    lemma_pow1(0x100_0000);
    lemma_pow_adds(0xFF_FFFF, 1, 1);
    lemma_pow_adds(0x100_0000, 1, 1);
    lemma_pow_adds(0xFF_FFFF, 2, 1);
    lemma_pow_adds(0x100_0000, 2, 1);
    lemma_pow_adds(0xFF_FFFF, 2, 2);
    lemma_pow_adds(0x100_0000, 2, 2);
    lemma_pow_adds(0xFF_FFFF, 4, 1);
    lemma_pow_adds(0x100_0000, 4, 1);
    let a2 = pow(0xFF_FFFF, 2);
    let b2 = pow(0x100_0000, 2);
    let a4 = pow(0xFF_FFFF, 4);
    let b4 = pow(0x100_0000, 4);
    assert(a2 == 0xFFFF_FE00_0001);
    assert(b2 == 0x1_0000_0000_0000);
    assert(a4 == 0xFFFF_FC00_0005_FFFF_FC00_0001) by (nonlinear_arith)
        requires
            a4 == a2 * a2,
            a2 == 0xFFFF_FE00_0001,
    ;
    assert(b4 == 0x1_0000_0000_0000_0000_0000_0000) by (nonlinear_arith)
        requires
            b4 == b2 * b2,
            b2 == 0x1_0000_0000_0000,
    ;
    let a3 = pow(0xFF_FFFF, 3);
    let b3 = pow(0x100_0000, 3);
    let a7 = pow(0xFF_FFFF, 7);
    let b7 = pow(0x100_0000, 7);
    assert(a3 == 0xFF_FFFD_0000_02FF_FFFF);
    assert(b3 == 0x100_0000_0000_0000_0000);
    assert(a7 == 0xFF_FFF9_0000_14FF_FFDD_0000_22FF_FFEB_0000_06FF_FFFF) by (nonlinear_arith)
        requires
            a7 == a4 * a3,
            a4 == 0xFFFF_FC00_0005_FFFF_FC00_0001,
            a3 == 0xFF_FFFD_0000_02FF_FFFF,
    ;
    assert(b7 == 0x100_0000_0000_0000_0000_0000_0000_0000_0000_0000_0000) by (nonlinear_arith)
        requires
            b7 == b4 * b3,
            b4 == 0x1_0000_0000_0000_0000_0000_0000,
            b3 == 0x100_0000_0000_0000_0000,
    ;
}

/// The sum of two squares, one of a quantity within one rounding and one
/// of a quantity that is either within one rounding too or no more than
/// 2^23 units of `l`, is within three roundings of the exact sum, provided
/// the first quantity is at least half of `l * c` and `c` is at least 2^64.
pub proof fn lemma_squares_with_small_part(p: int, q: int, r: int, w: int, l: int, c: int)
    requires
        within(p, q, 1),
        within(r, w, 1) || (0 <= r <= 0x80_0000 * l && 0 <= w <= 0x80_0001 * l),
        0 < l,
        l * c <= 2 * q,
        0x1_0000_0000_0000_0000 <= c,
    ensures
        within(p * p + r * r, q * q + w * w, 3),
{
    let pp = p * p;
    let qq = q * q;
    let rr = r * r;
    let ww = w * w;
    lemma_powers();
    lemma_within_square(p, q, 1);
    assert(0 < pp && 0 < qq) by (nonlinear_arith)
        requires
            pp == p * p,
            qq == q * q,
            0 < p,
            0 < q,
    ;
    if within(r, w, 1) {
        lemma_within_square(r, w, 1);
        lemma_within_sum(pp, qq, rr, ww, 2);
        lemma_within_weaken(pp + rr, qq + ww, 2, 3);
    } else {
        let ll = l * l;
        let cc = c * c;
        assert(rr <= 0x4000_0000_0000 * ll && 0 <= rr) by (nonlinear_arith)
            requires
                0 <= r <= 0x80_0000 * l,
                rr == r * r,
                ll == l * l,
        {
            assert(r * r <= (0x80_0000 * l) * (0x80_0000 * l));
        }
        assert(ww <= 0x4000_0100_0001 * ll && 0 <= ww) by (nonlinear_arith)
            requires
                0 <= w <= 0x80_0001 * l,
                ww == w * w,
                ll == l * l,
        {
            assert(w * w <= (0x80_0001 * l) * (0x80_0001 * l));
        }
        assert(ll * cc <= 4 * qq) by (nonlinear_arith)
            requires
                0 <= l * c <= 2 * q,
                ll == l * l,
                cc == c * c,
                qq == q * q,
        {
            assert((l * c) * (l * c) <= (2 * q) * (2 * q));
            assert((l * c) * (l * c) == (l * l) * (c * c));
        }
        assert(0 <= l * c) by (nonlinear_arith)
            requires
                0 < l,
                0 < c,
        ;
        assert(0x1_0000_0000_0000_0000_0000_0000_0000_0000 * ll <= ll * cc) by (nonlinear_arith)
            requires
                0x1_0000_0000_0000_0000 <= c,
                cc == c * c,
                0 <= ll,
        {
            assert(0x1_0000_0000_0000_0000 * 0x1_0000_0000_0000_0000 <= c * c);
        }
        assert(0 <= ll) by (nonlinear_arith)
            requires
                ll == l * l,
        ;
        assert(0xFFFF_FE00_0001 * pp <= 0x1_0000_0000_0000 * qq);
        assert(0xFFFF_FE00_0001 * qq <= 0x1_0000_0000_0000 * pp);
        assert(0xFF_FFFD_0000_02FF_FFFF * (pp + rr) <= 0x100_0000_0000_0000_0000 * (qq + ww));
        assert(0xFF_FFFD_0000_02FF_FFFF * (qq + ww) <= 0x100_0000_0000_0000_0000 * (pp + rr));
    }
}

} // verus!
