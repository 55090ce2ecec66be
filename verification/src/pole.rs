//! A pole: a point source that pushes on a query point, each axis by the
//! inverse square of the displacement along that axis alone.
use crate::arith::lemma_square_of_zero;
use crate::single::{Single, INFINITY_MAGNITUDE, MAX_MAGNITUDE};
use crate::vector::Vector2;
use vstd::prelude::*;

verus! {

/// A force component with the two infinities replaced by the largest and
/// the smallest finite value. What is not a number stays as it is.
pub open spec fn clamped(x: Single) -> Single {
    if x == Single::infinity() {
        Single::max()
    } else if x == Single::neg_infinity() {
        Single::min()
    } else {
        x
    }
}

/// Replaces an infinite force component by the finite value of largest
/// magnitude and the same sign.
pub fn clamp(x: Single) -> (r: Single)
    ensures
        r == clamped(x),
{
    if x.magnitude_bits() == INFINITY_MAGNITUDE {
        Single::with_sign(x.sign(), MAX_MAGNITUDE)
    } else {
        x
    }
}

/// A point source with a fixed place and mass.
#[derive(Clone, Copy)]
pub struct Pole2D {
    loc: Vector2<Single>,
    mass: Single,
}

impl Pole2D {
    /// Where the pole is.
    pub closed spec fn location(self) -> Seq<Single> {
        self.loc@
    }

    /// The strength of the pole; any number, of either sign.
    pub closed spec fn strength(self) -> Single {
        self.mass
    }

    /// The force along one axis: the coefficient times the mass, divided by
    /// the square of the displacement along that axis, then clamped.
    pub open spec fn axis_force(self, coeff: Single, at: Single, axis: int) -> Single {
        let d = at.difference(self.location()[axis]);
        clamped(coeff.product(self.strength()).quotient(d.product(d)))
    }

    /// The force that the pole exerts on the point `p` under the
    /// coefficient `coeff`.
    pub open spec fn force(self, coeff: Single, p: Seq<Single>) -> Seq<Single> {
        seq![self.axis_force(coeff, p[0], 0), self.axis_force(coeff, p[1], 1)]
    }

    pub fn new(x: Single, y: Single, mass: Single) -> (pole: Pole2D)
        ensures
            pole.location() == seq![x, y],
            pole.strength() == mass,
    {
        let pole = Pole2D { loc: [x, y], mass };
        assert(pole.loc@ =~= seq![x, y]);
        pole
    }

    /// Computes the force on the point `p`.
    pub fn get_force_vector(&self, coeff: Single, p: Vector2<Single>) -> (r: Vector2<Single>)
        ensures
            r@ == self.force(coeff, p@),
    {
        let dx: Single = p[0].sub(self.loc[0]);
        let dy: Single = p[1].sub(self.loc[1]);
        let x: Single = clamp(coeff.mul(self.mass).div(dx.mul(dx)));
        let y: Single = clamp(coeff.mul(self.mass).div(dy.mul(dy)));
        let r: Vector2<Single> = [x, y];
        assert(r@ =~= self.force(coeff, p@));
        r
    }
}

/// What has been clamped is not infinite.
pub proof fn lemma_clamped_is_never_infinite(x: Single)
    ensures
        !clamped(x).is_infinite(),
{
    if x.is_infinite() {
        assert(x == Single::infinity() || x == Single::neg_infinity());
    }
}

/// No force component is infinite: what would be comes out as the largest
/// or the smallest finite value.
pub proof fn lemma_force_is_never_infinite(pole: Pole2D, coeff: Single, p: Seq<Single>)
    ensures
        !pole.force(coeff, p)[0].is_infinite(),
        !pole.force(coeff, p)[1].is_infinite(),
{
    let dx = p[0].difference(pole.location()[0]);
    let dy = p[1].difference(pole.location()[1]);
    let raw_x = coeff.product(pole.strength()).quotient(dx.product(dx));
    let raw_y = coeff.product(pole.strength()).quotient(dy.product(dy));
    lemma_clamped_is_never_infinite(raw_x);
    lemma_clamped_is_never_infinite(raw_y);
    assert(pole.force(coeff, p)[0] == clamped(raw_x));
    assert(pole.force(coeff, p)[1] == clamped(raw_y));
}

/// Where the displacement along an axis is zero and the coefficient times
/// the mass is above zero, the force along that axis is the largest finite
/// value.
pub proof fn lemma_axis_force_at_zero_displacement(
    pole: Pole2D,
    coeff: Single,
    at: Single,
    axis: int,
)
    requires
        at.difference(pole.location()[axis]).is_zero(),
        coeff.product(pole.strength()).is_positive(),
    ensures
        pole.axis_force(coeff, at, axis) == Single::max(),
{
    lemma_square_of_zero(at.difference(pole.location()[axis]));
}

/// A pole queried at a point from which it has no displacement along
/// either axis, as at its own place, pushes with the largest finite value
/// along both, provided the coefficient times the mass is above zero.
pub proof fn lemma_force_at_own_location(pole: Pole2D, coeff: Single, p: Seq<Single>)
    requires
        p[0].difference(pole.location()[0]).is_zero(),
        p[1].difference(pole.location()[1]).is_zero(),
        coeff.product(pole.strength()).is_positive(),
    ensures
        pole.force(coeff, p) == seq![Single::max(), Single::max()],
{
    lemma_axis_force_at_zero_displacement(pole, coeff, p[0], 0);
    lemma_axis_force_at_zero_displacement(pole, coeff, p[1], 1);
}

/// A finite number has no displacement from itself.
pub proof fn lemma_no_displacement_from_itself(x: Single)
    requires
        x.is_finite(),
    ensures
        x.difference(x) == Single::zero(),
{
}

} // verus!
