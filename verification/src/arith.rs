//! Arithmetic on single-precision numbers: each result is the exact one,
//! rounded to the nearest representable value with ties to the even pattern.
use crate::grid::{
    grid, lemma_nearest, lemma_nearest_zero, lemma_rounding_of_equal_quotients, nearest, rounds_to,
};
use crate::rounding::{
    lemma_bracket_rounds, lemma_scales, power_of_two, round_exact, round_to_grid, scale_down,
    scale_up, unpack,
};
use crate::single::{Single, INFINITY_MAGNITUDE, NAN_BITS};
use vstd::arithmetic::div_mod::{lemma_fundamental_div_mod, lemma_mod_bound};
use vstd::arithmetic::power2::{
    lemma2_to64, lemma2_to64_rest, lemma_pow2_adds, lemma_pow2_pos, lemma_pow2_strictly_increases,
    lemma_pow2_unfold, pow2,
};
use vstd::prelude::*;

verus! {

impl Single {
    /// The absolute value of a finite number, in steps of 2^-149.
    pub open spec fn steps(self) -> int {
        grid(self.magnitude() as int)
    }

    /// The value of a finite number, in steps of 2^-149.
    pub open spec fn signed_steps(self) -> int {
        if self.is_negative() {
            -self.steps()
        } else {
            self.steps()
        }
    }

    /// The product of two numbers: not a number where either is none or
    /// where zero meets infinity; else the sign is negative where the two
    /// signs differ, and the magnitude is that of infinity or the rounded
    /// product.
    pub open spec fn product(self, rhs: Single) -> Single {
        if self.is_nan() || rhs.is_nan() || (self.is_infinite() && rhs.is_zero()) || (
        self.is_zero() && rhs.is_infinite()) {
            Single::nan()
        } else if self.is_infinite() || rhs.is_infinite() {
            Single::compose(self.is_negative() != rhs.is_negative(), INFINITY_MAGNITUDE)
        } else {
            Single::compose(
                self.is_negative() != rhs.is_negative(),
                nearest(self.steps() * rhs.steps(), pow2(149) as int) as u32,
            )
        }
    }

    /// Multiplies two numbers.
    pub fn mul(self, rhs: Single) -> (r: Single)
        ensures
            r == self.product(rhs),
    {
        let ma: u32 = self.magnitude_bits();
        let mb: u32 = rhs.magnitude_bits();
        let negative: bool = self.sign() != rhs.sign();
        if ma > INFINITY_MAGNITUDE || mb > INFINITY_MAGNITUDE {
            return Single::from_bits(NAN_BITS);
        }
        if ma == INFINITY_MAGNITUDE || mb == INFINITY_MAGNITUDE {
            if ma == 0 || mb == 0 {
                return Single::from_bits(NAN_BITS);
            }
            return Single::with_sign(negative, INFINITY_MAGNITUDE);
        }
        let (sa, ea) = unpack(ma);
        let (sb, eb) = unpack(mb);
        if sa == 0 || sb == 0 {
            proof {
                lemma_pow2_pos(149);
                assert(self.steps() * rhs.steps() == 0) by (nonlinear_arith)
                    requires
                        self.steps() == 0 || rhs.steps() == 0,
                ;
                lemma_nearest_zero(pow2(149) as int);
            }
            return Single::with_sign(negative, 0);
        }
        assert(1 <= sa * sb < 0x1_0000_0000_0000) by (nonlinear_arith)
            requires
                1 <= sa < 0x100_0000,
                1 <= sb < 0x100_0000,
        ;
        let x: i32 = ea + eb - 149;
        let m: u32 = round_exact(sa * sb, x);
        proof {
            lemma_product_quotient(sa as int, ea as int, sb as int, eb as int);
            lemma_rounding_of_equal_quotients(
                (sa * sb) * scale_up(x as int),
                scale_down(x as int),
                self.steps() * rhs.steps(),
                pow2(149) as int,
                m as int,
            );
            lemma_nearest(self.steps() * rhs.steps(), pow2(149) as int, m as int);
        }
        Single::with_sign(negative, m)
    }

    /// The quotient of two numbers: not a number where either is none, or
    /// both are infinite, or both are zero; else the sign is negative where
    /// the two signs differ, and the magnitude is that of infinity (an
    /// infinite dividend or a zero divisor), zero (an infinite divisor) or
    /// the rounded quotient.
    pub open spec fn quotient(self, rhs: Single) -> Single {
        if self.is_nan() || rhs.is_nan() || (self.is_infinite() && rhs.is_infinite()) || (
        self.is_zero() && rhs.is_zero()) {
            Single::nan()
        } else if self.is_infinite() || rhs.is_zero() {
            Single::compose(self.is_negative() != rhs.is_negative(), INFINITY_MAGNITUDE)
        } else if rhs.is_infinite() {
            Single::compose(self.is_negative() != rhs.is_negative(), 0)
        } else {
            Single::compose(
                self.is_negative() != rhs.is_negative(),
                nearest(self.steps() * pow2(149), rhs.steps()) as u32,
            )
        }
    }

    /// Divides one number by another.
    pub fn div(self, rhs: Single) -> (r: Single)
        ensures
            r == self.quotient(rhs),
    {
        let ma: u32 = self.magnitude_bits();
        let mb: u32 = rhs.magnitude_bits();
        let negative: bool = self.sign() != rhs.sign();
        if ma > INFINITY_MAGNITUDE || mb > INFINITY_MAGNITUDE {
            return Single::from_bits(NAN_BITS);
        }
        if ma == INFINITY_MAGNITUDE {
            if mb == INFINITY_MAGNITUDE {
                return Single::from_bits(NAN_BITS);
            }
            return Single::with_sign(negative, INFINITY_MAGNITUDE);
        }
        if mb == INFINITY_MAGNITUDE {
            return Single::with_sign(negative, 0);
        }
        let (sa, ea) = unpack(ma);
        let (sb, eb) = unpack(mb);
        if sb == 0 {
            if sa == 0 {
                return Single::from_bits(NAN_BITS);
            }
            return Single::with_sign(negative, INFINITY_MAGNITUDE);
        }
        proof {
            lemma_pow2_pos(eb as nat);
            assert(rhs.steps() > 0) by (nonlinear_arith)
                requires
                    rhs.steps() == sb * pow2(eb as nat),
                    sb > 0,
                    pow2(eb as nat) > 0,
            ;
        }
        if sa == 0 {
            proof {
                assert(self.steps() * pow2(149) == 0) by (nonlinear_arith)
                    requires
                        self.steps() == 0,
                ;
                lemma_nearest_zero(rhs.steps());
            }
            return Single::with_sign(negative, 0);
        }
        // Both significands get their leading bit, so that the quotient of
        // the dividend, forty bits up, by the divisor has forty or forty-one.
        let (na, ja) = align(sa);
        let (nb, jb) = align(sb);
        let num: u64 = na * 0x100_0000_0000;
        let q: u64 = num / nb;
        let rest: u64 = num % nb;
        let x: i32 = (ea + 149 + jb) - (ja + 40 + eb);
        proof {
            lemma_fundamental_div_mod(num as int, nb as int);
            lemma_mod_bound(num as int, nb as int);
            assert(0x80_0000_0000 <= q < 0x200_0000_0000) by (nonlinear_arith)
                requires
                    num == nb * q + rest,
                    0 <= rest < nb,
                    0x80_0000 <= nb < 0x100_0000,
                    0x80_0000 * 0x100_0000_0000 <= num < 0x100_0000 * 0x100_0000_0000,
            ;
        }
        let m: u32 = round_to_grid(q, rest == 0, x);
        proof {
            let up = scale_up(x as int);
            let down = scale_down(x as int);
            lemma2_to64_rest();
            lemma_quotient_identity(
                sa as int,
                ea as int,
                ja as int,
                sb as int,
                eb as int,
                jb as int,
                num as int,
                nb as int,
            );
            if rest == 0 {
                assert((q * up) * (nb * down) == (num * up) * down) by (nonlinear_arith)
                    requires
                        num == nb * q,
                ;
                lemma_rounding_of_equal_quotients(q * up, down, num * up, nb * down, m as int);
            } else {
                assert((q * up) * (nb * down) < (num * up) * down && (num * up) * down < ((q + 1)
                    * up) * (nb * down)) by (nonlinear_arith)
                    requires
                        num == nb * q + rest,
                        0 < rest < nb,
                        up > 0,
                        down > 0,
                {
                    assert((q * up) * (nb * down) == (nb * q) * (up * down));
                    assert((num * up) * down == num * (up * down));
                    assert(((q + 1) * up) * (nb * down) == (nb * q + nb) * (up * down));
                    assert(up * down > 0);
                }
                lemma_bracket_rounds(q as int, x as int, m as int, num * up, nb * down);
            }
            lemma_rounding_of_equal_quotients(
                num * up,
                nb * down,
                self.steps() * pow2(149),
                rhs.steps(),
                m as int,
            );
            lemma_nearest(self.steps() * pow2(149), rhs.steps(), m as int);
        }
        Single::with_sign(negative, m)
    }

    /// The sum of two numbers: not a number where either is none or where
    /// the two are infinities of opposite sign; an infinite operand
    /// otherwise; else the exact sum, rounded. An exact sum of zero is the
    /// negative zero only where both operands are negative.
    pub open spec fn sum(self, rhs: Single) -> Single {
        if self.is_nan() || rhs.is_nan() || (self.is_infinite() && rhs.is_infinite()
            && self.is_negative() != rhs.is_negative()) {
            Single::nan()
        } else if self.is_infinite() {
            self
        } else if rhs.is_infinite() {
            rhs
        } else {
            let s = self.signed_steps() + rhs.signed_steps();
            if s == 0 {
                Single::compose(self.is_negative() && rhs.is_negative(), 0)
            } else if s < 0 {
                Single::compose(true, nearest(-s, 1) as u32)
            } else {
                Single::compose(false, nearest(s, 1) as u32)
            }
        }
    }

    /// The difference of two numbers: the sum of the first and the negation
    /// of the second.
    pub open spec fn difference(self, rhs: Single) -> Single {
        self.sum(rhs.negation())
    }

    /// Adds two numbers.
    pub fn add(self, rhs: Single) -> (r: Single)
        ensures
            r == self.sum(rhs),
    {
        let ma: u32 = self.magnitude_bits();
        let mb: u32 = rhs.magnitude_bits();
        if ma > INFINITY_MAGNITUDE || mb > INFINITY_MAGNITUDE {
            return Single::from_bits(NAN_BITS);
        }
        if ma == INFINITY_MAGNITUDE {
            if mb == INFINITY_MAGNITUDE && self.sign() != rhs.sign() {
                return Single::from_bits(NAN_BITS);
            }
            return self;
        }
        if mb == INFINITY_MAGNITUDE {
            return rhs;
        }
        let (sa, ea) = unpack(ma);
        let (sb, eb) = unpack(mb);
        // The operand with the larger exponent comes first.
        let swap: bool = ea < eb;
        let s1: u64 = if swap { sb } else { sa };
        let e1: i32 = if swap { eb } else { ea };
        let neg1: bool = if swap { rhs.sign() } else { self.sign() };
        let s2: u64 = if swap { sa } else { sb };
        let e2: i32 = if swap { ea } else { eb };
        let neg2: bool = if swap { self.sign() } else { rhs.sign() };
        let gap: i32 = e1 - e2;
        let ghost a1: int = s1 * pow2(e1 as nat);
        let ghost a2: int = s2 * pow2(e2 as nat);
        let ghost total: int = self.signed_steps() + rhs.signed_steps();
        assert(total == (if neg1 { -a1 } else { a1 }) + (if neg2 { -a2 } else { a2 }));
        if gap <= 38 {
            // Both operands in units of the smaller exponent: the sum is exact.
            let unit: u64 = power_of_two(gap as u32);
            proof {
                lemma_aligned(s1 as int, e1 as int, s2 as int, e2 as int);
            }
            let wide: u64 = s1 * unit;
            let negative: bool = if neg1 == neg2 || wide >= s2 { neg1 } else { neg2 };
            let q: u64 = if neg1 == neg2 {
                wide + s2
            } else if wide >= s2 {
                wide - s2
            } else {
                s2 - wide
            };
            let ghost p: int = pow2(e2 as nat) as int;
            proof {
                lemma_pow2_pos(e2 as nat);
                assert((wide + s2) * p == wide * p + s2 * p && (wide - s2) * p == wide * p - s2 * p
                    && (s2 - wide) * p == s2 * p - wide * p) by (nonlinear_arith);
                assert(wide > s2 ==> wide * p > s2 * p) by (nonlinear_arith)
                    requires
                        p > 0,
                ;
                assert(wide < s2 ==> wide * p < s2 * p) by (nonlinear_arith)
                    requires
                        p > 0,
                ;
                assert(q == 0 ==> q * p == 0) by (nonlinear_arith);
                assert(q > 0 ==> q * p > 0) by (nonlinear_arith)
                    requires
                        p > 0,
                ;
            }
            if q == 0 {
                assert(total == 0);
                return Single::with_sign(neg1 && neg2, 0);
            }
            let m: u32 = round_exact(q, e2);
            proof {
                assert(q * p == if total < 0 { -total } else { total });
                lemma_nearest(q * p, 1, m as int);
                assert(negative == (total < 0));
            }
            Single::with_sign(negative, m)
        } else {
            // The smaller operand lies below the last kept bit of the
            // larger: it only says on which side of the larger the sum is.
            let wide: u64 = s1 * 0x4000;
            let x: i32 = e1 - 14;
            let ghost up: int = pow2(x as nat) as int;
            proof {
                lemma_far(s1 as int, e1 as int, s2 as int, e2 as int);
            }
            if s2 == 0 {
                let m: u32 = round_exact(wide, x);
                proof {
                    lemma_nearest(wide * up, 1, m as int);
                    assert(wide * up == if total < 0 { -total } else { total });
                    assert(neg1 == (total < 0));
                }
                Single::with_sign(neg1, m)
            } else {
                let q: u64 = if neg1 == neg2 { wide } else { (wide - 1) as u64 };
                let m: u32 = round_to_grid(q, false, x);
                proof {
                    let n: int = if neg1 == neg2 { a1 + a2 } else { a1 - a2 };
                    assert((wide - 1) * up == wide * up - up && (wide + 1) * up == wide * up + up)
                        by (nonlinear_arith);
                    assert((q * up) * 1 < n * 1);
                    assert(n * 1 < ((q + 1) * up) * 1);
                    lemma_bracket_rounds(q as int, x as int, m as int, n, 1);
                    lemma_nearest(n, 1, m as int);
                    assert(n == if total < 0 { -total } else { total });
                    assert(neg1 == (total < 0));
                }
                Single::with_sign(neg1, m)
            }
        }
    }

    /// Subtracts the second number from the first.
    pub fn sub(self, rhs: Single) -> (r: Single)
        ensures
            r == self.difference(rhs),
    {
        self.add(rhs.neg())
    }
}

/// The product of `sa * 2^ea` and `sb * 2^eb` steps, counted in steps, is
/// `sa * sb` units of 2^(`ea + eb - 149`).
proof fn lemma_product_quotient(sa: int, ea: int, sb: int, eb: int)
    requires
        0 <= ea,
        0 <= eb,
    ensures
        ({
            let x = ea + eb - 149;
            ((sa * sb) * scale_up(x)) * pow2(149) == ((sa * pow2(ea as nat)) * (sb * pow2(
                eb as nat,
            ))) * scale_down(x)
        }),
        pow2(149) > 0,
        scale_down(ea + eb - 149) > 0,
{
    let x = ea + eb - 149;
    let pa = pow2(ea as nat) as int;
    let pb = pow2(eb as nat) as int;
    let w = pow2((ea + eb) as nat) as int;
    let c = pow2(149) as int;
    let up = scale_up(x);
    let down = scale_down(x);
    lemma_pow2_adds(ea as nat, eb as nat);
    lemma_pow2_pos(149);
    if x >= 0 {
        lemma_pow2_adds(149, x as nat);
    } else {
        lemma_pow2_adds((ea + eb) as nat, (-x) as nat);
        lemma_pow2_pos((-x) as nat);
    }
    assert(up * c == w * down);
    assert(((sa * sb) * up) * c == ((sa * pa) * (sb * pb)) * down) by (nonlinear_arith)
        requires
            up * c == w * down,
            w == pa * pb,
    {
        assert(((sa * sb) * up) * c == (sa * sb) * (up * c));
        assert((sa * pa) * (sb * pb) == (sa * sb) * (pa * pb));
    }
}

/// Moves a significand up until its leading bit is the twenty-fourth.
pub fn align(sig: u64) -> (r: (u64, i32))
    requires
        1 <= sig < 0x100_0000,
    ensures
        r.0 == sig * pow2(r.1 as nat),
        0x80_0000 <= r.0 < 0x100_0000,
        0 <= r.1 <= 23,
{
    let mut s: u64 = sig;
    let mut j: i32 = 0;
    proof {
        lemma2_to64();
        assert(sig * pow2(0) == sig) by (nonlinear_arith)
            requires
                pow2(0) == 1,
        ;
    }
    while s < 0x80_0000
        invariant
            1 <= s < 0x100_0000,
            0 <= j <= 23,
            s == sig * pow2(j as nat),
            sig >= 1,
        decreases 0x100_0000 - s,
    {
        proof {
            lemma2_to64();
            lemma_pow2_unfold((j + 1) as nat);
            assert(sig * (2 * pow2(j as nat)) == 2 * (sig * pow2(j as nat))) by (nonlinear_arith);
            if j >= 23 {
                assert(sig * pow2(j as nat) >= 0x80_0000) by (nonlinear_arith)
                    requires
                        sig >= 1,
                        pow2(j as nat) >= 0x80_0000,
                ;
            }
        }
        s = s * 2;
        j = j + 1;
    }
    (s, j)
}

/// The quotient of `sa * 2^ea * 2^149` by `sb * 2^eb`, with both
/// significands moved up and the dividend forty bits more, is `num / nb`
/// units of 2^`x`.
proof fn lemma_quotient_identity(
    sa: int,
    ea: int,
    ja: int,
    sb: int,
    eb: int,
    jb: int,
    num: int,
    nb: int,
)
    requires
        0 <= ea,
        0 <= ja,
        0 <= eb,
        0 <= jb,
        0 < sb,
        num == (sa * pow2(ja as nat)) * 0x100_0000_0000,
        nb == sb * pow2(jb as nat),
    ensures
        ({
            let x = (ea + 149 + jb) - (ja + 40 + eb);
            &&& (num * scale_up(x)) * (sb * pow2(eb as nat)) == ((sa * pow2(ea as nat)) * pow2(149))
                * (nb * scale_down(x))
            &&& scale_up(x) > 0
            &&& scale_down(x) > 0
            &&& nb * scale_down(x) > 0
            &&& sb * pow2(eb as nat) > 0
        }),
{
    let x = (ea + 149 + jb) - (ja + 40 + eb);
    let up = scale_up(x);
    let down = scale_down(x);
    let pa = pow2(ea as nat) as int;
    let pb = pow2(eb as nat) as int;
    let ka = pow2(ja as nat) as int;
    let kb = pow2(jb as nat) as int;
    let c = pow2(149) as int;
    let c40 = pow2(40) as int;
    let big = pow2((ea + 149 + jb) as nat) as int;
    let small = pow2((ja + 40 + eb) as nat) as int;
    lemma2_to64_rest();
    lemma_scales(x, ja + 40 + eb, ea + 149 + jb);
    lemma_pow2_adds(ea as nat, 149);
    lemma_pow2_adds((ea + 149) as nat, jb as nat);
    lemma_pow2_adds(ja as nat, 40);
    lemma_pow2_adds((ja + 40) as nat, eb as nat);
    lemma_pow2_pos(eb as nat);
    lemma_pow2_pos(jb as nat);
    assert(big == (pa * c) * kb);
    assert(small == (ka * c40) * pb);
    assert(big * down == small * up);
    let s2 = sa * sb;
    let y = sb * pb;
    let z = (sa * pa) * c;
    assert(num * y == s2 * small) by (nonlinear_arith)
        requires
            num == (sa * ka) * c40,
            small == (ka * c40) * pb,
            y == sb * pb,
            s2 == sa * sb,
    ;
    assert(z * nb == s2 * big) by (nonlinear_arith)
        requires
            z == (sa * pa) * c,
            nb == sb * kb,
            big == (pa * c) * kb,
            s2 == sa * sb,
    ;
    assert((num * up) * y == z * (nb * down)) by (nonlinear_arith)
        requires
            num * y == s2 * small,
            z * nb == s2 * big,
            big * down == small * up,
    {
        assert((num * up) * y == (num * y) * up);
        assert((s2 * small) * up == s2 * (small * up));
        assert(z * (nb * down) == (z * nb) * down);
        assert((s2 * big) * down == s2 * (big * down));
    }
    assert(nb * down > 0 && sb * pb > 0) by (nonlinear_arith)
        requires
            nb == sb * kb,
            sb > 0,
            kb > 0,
            pb > 0,
            down > 0,
    ;
}

/// The square of either zero is the positive zero.
pub proof fn lemma_square_of_zero(d: Single)
    requires
        d.is_zero(),
    ensures
        d.product(d) == Single::zero(),
{
    lemma_pow2_pos(149);
    lemma_nearest_zero(pow2(149) as int);
    assert(d.steps() * d.steps() == 0) by (nonlinear_arith)
        requires
            d.steps() == 0,
    ;
}

/// A sum does not depend on the order of its operands.
pub proof fn lemma_sum_commutes(a: Single, b: Single)
    ensures
        a.sum(b) == b.sum(a),
{
}

/// With the exponents no more than thirty-eight apart, the operand of the
/// larger exponent fits a machine word in units of the smaller.
proof fn lemma_aligned(s1: int, e1: int, s2: int, e2: int)
    requires
        0 <= e2 <= e1,
        e1 - e2 <= 38,
        0 <= s1 < 0x100_0000,
    ensures
        pow2((e1 - e2) as nat) <= 0x40_0000_0000,
        s1 * pow2((e1 - e2) as nat) < 0x4000_0000_0000_0000,
        (s1 * pow2((e1 - e2) as nat)) * pow2(e2 as nat) == s1 * pow2(e1 as nat),
{
    let gap = (e1 - e2) as nat;
    let g = pow2(gap) as int;
    let small = pow2(e2 as nat) as int;
    let big = pow2(e1 as nat) as int;
    lemma2_to64_rest();
    if gap < 38 {
        lemma_pow2_strictly_increases(gap, 38);
    }
    lemma_pow2_adds(gap, e2 as nat);
    assert(s1 * g < 0x4000_0000_0000_0000) by (nonlinear_arith)
        requires
            0 <= s1 < 0x100_0000,
            0 <= g <= 0x40_0000_0000,
    ;
    assert((s1 * g) * small == s1 * big) by (nonlinear_arith)
        requires
            big == g * small,
    ;
}

/// With the exponents more than thirty-eight apart, the operand of the
/// smaller exponent is less than one unit of the larger operand written
/// fourteen bits up.
proof fn lemma_far(s1: int, e1: int, s2: int, e2: int)
    requires
        0 <= e2,
        e1 - e2 >= 39,
        0 <= s1 < 0x100_0000,
        0 <= s2 < 0x100_0000,
        e1 > 0 ==> 0x80_0000 <= s1,
    ensures
        (s1 * 0x4000) * pow2((e1 - 14) as nat) == s1 * pow2(e1 as nat),
        s2 * pow2(e2 as nat) < pow2((e1 - 14) as nat),
        s2 > 0 ==> s2 * pow2(e2 as nat) > 0,
        s2 == 0 ==> s2 * pow2(e2 as nat) == 0,
        s1 * pow2(e1 as nat) >= pow2((e1 - 14) as nat) > 0,
        scale_up(e1 - 14) == pow2((e1 - 14) as nat),
        scale_down(e1 - 14) == 1,
        0x80_0000 <= s1,
{
    let up = pow2((e1 - 14) as nat) as int;
    let big = pow2(e1 as nat) as int;
    let small = pow2(e2 as nat) as int;
    lemma2_to64();
    lemma_pow2_adds(14, (e1 - 14) as nat);
    lemma_pow2_adds(24, e2 as nat);
    lemma_pow2_pos(e2 as nat);
    if 24 + e2 < e1 - 14 {
        lemma_pow2_strictly_increases((24 + e2) as nat, (e1 - 14) as nat);
    }
    assert((s1 * 0x4000) * up == s1 * big) by (nonlinear_arith)
        requires
            big == 0x4000 * up,
    ;
    assert(s2 * small < 0x100_0000 * small) by (nonlinear_arith)
        requires
            0 <= s2 < 0x100_0000,
            small > 0,
    ;
    assert(s2 > 0 ==> s2 * small > 0) by (nonlinear_arith)
        requires
            small > 0,
    ;
    assert(s2 == 0 ==> s2 * small == 0) by (nonlinear_arith);
    lemma_pow2_pos((e1 - 14) as nat);
    assert(s1 * big >= up) by (nonlinear_arith)
        requires
            big == 0x4000 * up,
            s1 >= 1,
            up > 0,
    ;
}

} // verus!
