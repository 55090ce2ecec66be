//! Pairs of numbers: length, normalisation and the quarter turn.
use crate::arith::lemma_square_of_zero;
use crate::single::Single;
use vstd::prelude::*;

verus! {

/// A 2D vector.
pub type Vector2<T> = [T; 2];

/// A 3D vector.
pub type Vector3<T> = [T; 3];

/// The Euclidean length of a pair: the root of the sum of the two squares,
/// each step rounded.
pub open spec fn length(v: Seq<Single>) -> Single {
    v[0].product(v[0]).sum(v[1].product(v[1])).root()
}

/// A pair scaled to unit length: both components divided by the length, or
/// the zero pair where the length is zero.
pub open spec fn normalized(v: Seq<Single>) -> Seq<Single> {
    if length(v).is_zero() {
        seq![Single::zero(), Single::zero()]
    } else {
        seq![v[0].quotient(length(v)), v[1].quotient(length(v))]
    }
}

/// A pair turned clockwise by a quarter: `(x, y)` becomes `(y, -x)`.
pub open spec fn perpendicular(v: Seq<Single>) -> Seq<Single> {
    seq![v[1], v[0].negation()]
}

/// Scales a pair to unit length; a pair of length zero gives the zero pair.
pub fn normalize(vec: Vector2<Single>) -> (r: Vector2<Single>)
    ensures
        r@ == normalized(vec@),
{
    let length: Single = vec[0].mul(vec[0]).add(vec[1].mul(vec[1])).sqrt();
    let r: Vector2<Single> = if length.equals_zero() {
        [Single::from_bits(0), Single::from_bits(0)]
    } else {
        [vec[0].div(length), vec[1].div(length)]
    };
    assert(r@ =~= normalized(vec@));
    r
}

/// Turns a pair clockwise by a quarter.
pub fn perp(vec: Vector2<Single>) -> (r: Vector2<Single>)
    ensures
        r@ == perpendicular(vec@),
{
    let r: Vector2<Single> = [vec[1], vec[0].neg()];
    assert(r@ =~= perpendicular(vec@));
    r
}

/// A pair of zeros, of whatever signs, has length zero and normalises to
/// the zero pair.
pub proof fn lemma_zero_pair_normalizes_to_zero(v: Seq<Single>)
    requires
        v[0].is_zero(),
        v[1].is_zero(),
    ensures
        length(v) == Single::zero(),
        normalized(v) == seq![Single::zero(), Single::zero()],
{
    lemma_square_of_zero(v[0]);
    lemma_square_of_zero(v[1]);
    assert(Single::zero().signed_steps() == 0);
}

} // verus!
