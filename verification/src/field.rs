//! Flow fields: the forces of a sequence of poles, summed at a query point.
use crate::pole::Pole2D;
use crate::single::Single;
use crate::vector::{normalize, normalized, perp, perpendicular, Vector2};
use vstd::prelude::*;

verus! {

/// The pattern of the coefficient that a field has by default, 6.67.
pub const DEFAULT_COEFFICIENT: u32 = 0x40D5_70A4;

/// The forces of `poles` at the point `p`, summed axis by axis in the order
/// of the sequence, starting from zero.
pub open spec fn superposition(poles: Seq<Pole2D>, coeff: Single, p: Seq<Single>) -> Seq<Single>
    decreases poles.len(),
{
    if poles.len() == 0 {
        seq![Single::zero(), Single::zero()]
    } else {
        let before = superposition(poles.drop_last(), coeff, p);
        let force = poles.last().force(coeff, p);
        seq![before[0].sum(force[0]), before[1].sum(force[1])]
    }
}

/// What every flow field offers: the summed force at a point, its
/// normalised and perpendicular forms, and the adding of a pole.
pub trait Flowfield2D {
    /// The poles of the field, in the order in which they were added.
    spec fn poles(&self) -> Seq<Pole2D>;

    /// The factor that scales every pole's force.
    spec fn coefficient(&self) -> Single;

    /// The summed force of all poles at the point `(x, y)`.
    fn get_vec(&self, x: Single, y: Single) -> (r: Vector2<Single>)
        ensures
            r@ == superposition(self.poles(), self.coefficient(), seq![x, y]),
    ;

    /// The summed force, scaled to unit length.
    fn get_normalized_vec(&self, x: Single, y: Single) -> (r: Vector2<Single>)
        ensures
            r@ == normalized(superposition(self.poles(), self.coefficient(), seq![x, y])),
    ;

    /// The summed force, turned clockwise by a quarter and not scaled.
    fn get_perp_vec(&self, x: Single, y: Single) -> (r: Vector2<Single>)
        ensures
            r@ == perpendicular(superposition(self.poles(), self.coefficient(), seq![x, y])),
    ;

    /// The summed force, turned clockwise by a quarter and then scaled to
    /// unit length.
    fn get_perp_normalized_vec(&self, x: Single, y: Single) -> (r: Vector2<Single>)
        ensures
            r@ == normalized(
                perpendicular(superposition(self.poles(), self.coefficient(), seq![x, y])),
            ),
    ;

    /// Adds a pole after all the others. Nothing else changes.
    fn add_pole(&mut self, pole: Pole2D)
        ensures
            final(self).poles() == old(self).poles().push(pole),
            final(self).coefficient() == old(self).coefficient(),
    ;
}

/// A field that holds its poles in a growable sequence.
pub struct BoundedFlowfield2D {
    poles: Vec<Pole2D>,
    coeff: Single,
}

impl BoundedFlowfield2D {
    /// A field without poles and with the default coefficient.
    pub fn default() -> (field: BoundedFlowfield2D)
        ensures
            field.poles() == Seq::<Pole2D>::empty(),
            field.coefficient() == (Single { bits: DEFAULT_COEFFICIENT }),
    {
        BoundedFlowfield2D { poles: Vec::new(), coeff: Single::from_bits(DEFAULT_COEFFICIENT) }
    }
}

impl Flowfield2D for BoundedFlowfield2D {
    closed spec fn poles(&self) -> Seq<Pole2D> {
        self.poles@
    }

    closed spec fn coefficient(&self) -> Single {
        self.coeff
    }

    fn get_vec(&self, x: Single, y: Single) -> (r: Vector2<Single>) {
        let mut cur_x: Single = Single::from_bits(0);
        let mut cur_y: Single = Single::from_bits(0);
        let ghost p: Seq<Single> = seq![x, y];
        let n: usize = self.poles.len();
        let mut i: usize = 0;
        assert(self.poles@.take(0) =~= Seq::<Pole2D>::empty());
        while i < n
            invariant
                i <= n,
                n == self.poles@.len(),
                p == seq![x, y],
                seq![cur_x, cur_y] == superposition(self.poles@.take(i as int), self.coeff, p),
            decreases n - i,
        {
            let pole_vec: Vector2<Single> = self.poles[i].get_force_vector(self.coeff, [x, y]);
            proof {
                let done = self.poles@.take(i as int);
                let next = self.poles@.take(i + 1);
                assert(next.drop_last() =~= done);
                assert(next.last() == self.poles@[i as int]);
                assert([x, y]@ =~= p);
                let before = superposition(done, self.coeff, p);
                assert(before[0] == cur_x && before[1] == cur_y) by {
                    assert(seq![cur_x, cur_y][0] == cur_x);
                    assert(seq![cur_x, cur_y][1] == cur_y);
                }
            }
            cur_x = cur_x.add(pole_vec[0]);
            cur_y = cur_y.add(pole_vec[1]);
            i = i + 1;
        }
        assert(self.poles@.take(n as int) =~= self.poles@);
        let r: Vector2<Single> = [cur_x, cur_y];
        assert(r@ =~= seq![cur_x, cur_y]);
        r
    }

    fn get_normalized_vec(&self, x: Single, y: Single) -> (r: Vector2<Single>) {
        let vec = self.get_vec(x, y);
        normalize(vec)
    }

    fn get_perp_vec(&self, x: Single, y: Single) -> (r: Vector2<Single>) {
        let vec = self.get_vec(x, y);
        perp(vec)
    }

    fn get_perp_normalized_vec(&self, x: Single, y: Single) -> (r: Vector2<Single>) {
        let vec = self.get_perp_vec(x, y);
        normalize(vec)
    }

    fn add_pole(&mut self, pole: Pole2D) {
        self.poles.push(pole);
    }
}

/// A field without poles exerts no force at any point.
pub proof fn lemma_no_poles_no_force<F: Flowfield2D>(field: &F, x: Single, y: Single)
    requires
        field.poles().len() == 0,
    ensures
        superposition(field.poles(), field.coefficient(), seq![x, y]) == seq![
            Single::zero(),
            Single::zero(),
        ],
{
}

/// What a field returns as its perpendicular vector at a point is what it
/// returns as its raw vector there, with the components swapped and the
/// sign of the second flipped; nothing is scaled.
pub proof fn lemma_perp_vec_is_raw_turned<F: Flowfield2D>(
    field: &F,
    x: Single,
    y: Single,
    raw: Seq<Single>,
    turned: Seq<Single>,
)
    requires
        raw == superposition(field.poles(), field.coefficient(), seq![x, y]),
        turned == perpendicular(superposition(field.poles(), field.coefficient(), seq![x, y])),
    ensures
        turned == seq![raw[1], raw[0].negation()],
{
}

/// The force of a sequence of poles with one more pole at its end is the
/// force of the sequence with the force of that pole added, axis by axis.
pub proof fn lemma_superposition_push(
    poles: Seq<Pole2D>,
    pole: Pole2D,
    coeff: Single,
    p: Seq<Single>,
)
    ensures
        superposition(poles.push(pole), coeff, p) == seq![
            superposition(poles, coeff, p)[0].sum(pole.force(coeff, p)[0]),
            superposition(poles, coeff, p)[1].sum(pole.force(coeff, p)[1]),
        ],
{
    assert(poles.push(pole).drop_last() =~= poles);
    assert(poles.push(pole).last() == pole);
}

/// Adding a pole leaves every earlier pole in its place and makes the
/// field one pole longer.
pub proof fn lemma_push_keeps_earlier_poles(poles: Seq<Pole2D>, pole: Pole2D)
    ensures
        poles.push(pole).len() == poles.len() + 1,
        poles.push(pole).take(poles.len() as int) == poles,
        poles.push(pole).last() == pole,
{
    assert(poles.push(pole).take(poles.len() as int) =~= poles);
}

} // verus!
