use flowfield::{normalize, BoundedFlowfield2D, Flowfield2D, Pole2D, Single, Vector2};

fn single(x: f32) -> Single {
    Single::from_bits(x.to_bits())
}

fn float(x: Single) -> f32 {
    f32::from_bits(x.to_bits())
}

fn pair(v: [f32; 2]) -> Vector2<Single> {
    [single(v[0]), single(v[1])]
}

fn floats(v: Vector2<Single>) -> [f32; 2] {
    [float(v[0]), float(v[1])]
}

fn same(a: f32, b: f32) -> bool {
    (a.is_nan() && b.is_nan()) || a.to_bits() == b.to_bits()
}

fn same_pair(a: [f32; 2], b: [f32; 2]) -> bool {
    same(a[0], b[0]) && same(a[1], b[1])
}

fn next(state: &mut u64) -> u32 {
    *state = state.wrapping_mul(6364136223846793005).wrapping_add(1442695040888963407);
    (*state >> 32) as u32
}

/// A number between -64 and 64 on a grid of sixteenths, or now and then
/// any pattern at all.
fn sample(state: &mut u64) -> f32 {
    let raw = next(state);
    if raw % 16 == 0 {
        f32::from_bits(next(state))
    } else {
        ((raw >> 8) % 2049) as f32 / 16.0 - 64.0
    }
}

fn machine_clamp(x: f32) -> f32 {
    if x == f32::INFINITY {
        f32::MAX
    } else if x == f32::NEG_INFINITY {
        f32::MIN
    } else {
        x
    }
}

fn machine_force(pole: [f32; 3], coeff: f32, p: [f32; 2]) -> [f32; 2] {
    let dx = p[0] - pole[0];
    let dy = p[1] - pole[1];
    [machine_clamp(coeff * pole[2] / (dx * dx)), machine_clamp(coeff * pole[2] / (dy * dy))]
}

fn machine_normalize(v: [f32; 2]) -> [f32; 2] {
    let length = ((v[0] * v[0]) + (v[1] * v[1])).sqrt();
    if length == 0.0 {
        return [0., 0.];
    }
    [v[0] / length, v[1] / length]
}

#[test]
fn force_follows_the_inverse_square_of_each_axis_alone() {
    let pole = Pole2D::new(single(0.), single(0.), single(2.));
    let result = floats(pole.get_force_vector(single(3.), pair([2., 4.])));
    assert_eq!(result, [1.5, 0.375]);
    let result = floats(pole.get_force_vector(single(3.), pair([-2., -4.])));
    assert_eq!(result, [1.5, 0.375]);
    let pole = Pole2D::new(single(1.), single(-1.), single(-8.));
    let result = floats(pole.get_force_vector(single(0.5), pair([3., 1.])));
    assert_eq!(result, [-1., -1.]);
}

#[test]
fn force_at_the_pole_is_the_smallest_finite_value_for_a_negative_mass() {
    let pole = Pole2D::new(single(542.), single(-123.), single(-10.));
    let result = floats(pole.get_force_vector(single(6.6), pair([542., -123.])));
    assert_eq!(result, [f32::MIN, f32::MIN]);
}

#[test]
fn force_at_the_pole_is_not_a_number_for_a_zero_mass() {
    let pole = Pole2D::new(single(1.), single(2.), single(0.));
    let result = floats(pole.get_force_vector(single(6.6), pair([1., 2.])));
    assert!(result[0].is_nan());
    assert!(result[1].is_nan());
}

#[test]
fn force_is_clamped_on_one_axis_alone() {
    let pole = Pole2D::new(single(1.), single(2.), single(4.));
    let result = floats(pole.get_force_vector(single(1.), pair([1., 4.])));
    assert_eq!(result, [f32::MAX, 1.]);
}

#[test]
fn force_that_overflows_is_clamped() {
    let pole = Pole2D::new(single(0.), single(0.), single(1e30));
    let result = floats(pole.get_force_vector(single(1e30), pair([1., -1.])));
    assert_eq!(result, [f32::MAX, f32::MAX]);
    let result = floats(pole.get_force_vector(single(-1e30), pair([1., -1.])));
    assert_eq!(result, [f32::MIN, f32::MIN]);
}

#[test]
fn force_agrees_with_the_machine_on_scattered_inputs() {
    let mut state: u64 = 21;
    for _ in 0..100000 {
        let pole = [sample(&mut state), sample(&mut state), sample(&mut state)];
        let coeff = sample(&mut state);
        let p = [sample(&mut state), sample(&mut state)];
        let ours = Pole2D::new(single(pole[0]), single(pole[1]), single(pole[2]))
            .get_force_vector(single(coeff), pair(p));
        let native = machine_force(pole, coeff, p);
        assert!(same_pair(floats(ours), native), "{:?} {} {:?}", pole, coeff, p);
    }
}

#[test]
fn default_field_has_the_default_coefficient() {
    let mut field = BoundedFlowfield2D::default();
    field.add_pole(Pole2D::new(single(0.), single(0.), single(1.)));
    let result = floats(field.get_vec(single(1.), single(1.)));
    assert_eq!(result, [6.67, 6.67]);
}

#[test]
fn field_sums_the_forces_of_its_poles_in_order() {
    let poles = [[0., 0., 1.], [3., -2., 2.5], [-1., 7., -4.], [0.5, 0.25, 1e-3]];
    let p = [1.25, 3.5];
    let mut field = BoundedFlowfield2D::default();
    let mut expected = [0.0f32, 0.0f32];
    for pole in poles.iter() {
        field.add_pole(Pole2D::new(single(pole[0]), single(pole[1]), single(pole[2])));
        let force = machine_force(*pole, 6.67, p);
        expected[0] += force[0];
        expected[1] += force[1];
        // each pole adds its own force to what the field gave before
        assert_eq!(floats(field.get_vec(single(p[0]), single(p[1]))), expected);
    }
}

#[test]
fn field_output_is_the_sum_of_the_single_forces() {
    let a = Pole2D::new(single(1.), single(1.), single(3.));
    let b = Pole2D::new(single(-2.), single(4.), single(-5.));
    let p = pair([2., 2.]);
    let coeff = single(6.67);
    let fa = a.get_force_vector(coeff, p);
    let fb = b.get_force_vector(coeff, p);
    let mut field = BoundedFlowfield2D::default();
    field.add_pole(a);
    field.add_pole(b);
    let zero = Single::from_bits(0);
    let expected = [zero.add(fa[0]).add(fb[0]), zero.add(fa[1]).add(fb[1])];
    assert_eq!(floats(field.get_vec(p[0], p[1])), floats(expected));
}

#[test]
fn adding_a_pole_does_not_disturb_a_query_elsewhere_in_time() {
    let mut field = BoundedFlowfield2D::default();
    field.add_pole(Pole2D::new(single(1.), single(2.), single(3.)));
    let before = floats(field.get_vec(single(4.), single(6.)));
    let again = floats(field.get_vec(single(4.), single(6.)));
    assert_eq!(before, again);
    let added = Pole2D::new(single(-1.), single(-2.), single(8.));
    let force = floats(added.get_force_vector(single(6.67), pair([4., 6.])));
    field.add_pole(added);
    let after = floats(field.get_vec(single(4.), single(6.)));
    assert_eq!(after, [before[0] + force[0], before[1] + force[1]]);
}

#[test]
fn perp_vec_is_the_raw_vector_turned() {
    let mut field = BoundedFlowfield2D::default();
    field.add_pole(Pole2D::new(single(1.), single(2.), single(3.)));
    field.add_pole(Pole2D::new(single(-4.), single(0.5), single(-1.5)));
    let mut state: u64 = 22;
    for _ in 0..1000 {
        let x = sample(&mut state);
        let y = sample(&mut state);
        let raw = floats(field.get_vec(single(x), single(y)));
        let turned = floats(field.get_perp_vec(single(x), single(y)));
        assert!(same_pair(turned, [raw[1], -raw[0]]), "{} {}", x, y);
    }
}

#[test]
fn perp_vec_of_the_empty_field_has_a_negative_zero() {
    let field = BoundedFlowfield2D::default();
    let turned = field.get_perp_vec(single(1.), single(2.));
    assert_eq!(turned[0].to_bits(), 0);
    assert_eq!(turned[1].to_bits(), 0x8000_0000);
}

#[test]
fn normalized_vecs_are_the_normalised_raw_and_turned_vectors() {
    let mut field = BoundedFlowfield2D::default();
    field.add_pole(Pole2D::new(single(1.), single(2.), single(3.)));
    field.add_pole(Pole2D::new(single(-4.), single(0.5), single(-1.5)));
    let mut state: u64 = 23;
    for _ in 0..1000 {
        let x = sample(&mut state);
        let y = sample(&mut state);
        let raw = floats(field.get_vec(single(x), single(y)));
        let unit = floats(field.get_normalized_vec(single(x), single(y)));
        assert!(same_pair(unit, machine_normalize(raw)), "{} {}", x, y);
        let turned = floats(field.get_perp_normalized_vec(single(x), single(y)));
        assert!(same_pair(turned, machine_normalize([raw[1], -raw[0]])), "{} {}", x, y);
    }
}

#[test]
fn normalized_vec_of_the_empty_field_is_zero() {
    let field = BoundedFlowfield2D::default();
    assert_eq!(floats(field.get_normalized_vec(single(3.), single(-4.))), [0., 0.]);
    assert_eq!(floats(field.get_perp_normalized_vec(single(3.), single(-4.))), [0., 0.]);
}

#[test]
fn normalize_agrees_with_the_machine_on_scattered_inputs() {
    let mut state: u64 = 24;
    for _ in 0..100000 {
        let v = [sample(&mut state), sample(&mut state)];
        let ours = floats(normalize(pair(v)));
        assert!(same_pair(ours, machine_normalize(v)), "{:?}", v);
    }
}

#[test]
fn normalize_gives_unit_length_within_tolerance() {
    let mut state: u64 = 25;
    for _ in 0..10000 {
        let v = [
            ((next(&mut state) >> 8) % 2049) as f32 / 16.0 - 64.0,
            ((next(&mut state) >> 8) % 2049) as f32 / 16.0 - 64.0,
        ];
        if v == [0., 0.] {
            continue;
        }
        let unit = normalize(pair(v));
        let length = unit[0].mul(unit[0]).add(unit[1].mul(unit[1])).sqrt();
        assert!((float(length) - 1.0).abs() <= 2.0 * f32::EPSILON, "{:?}", v);
    }
}

#[test]
fn normalize_of_a_vector_whose_squares_vanish_is_zero() {
    let result = floats(normalize(pair([1e-30, 0.])));
    assert_eq!(result, [0., 0.]);
}

#[test]
fn normalize_of_a_vector_whose_squares_overflow_is_zero() {
    let result = floats(normalize(pair([1e30, -1e30])));
    assert_eq!(result[0], 0.);
    assert_eq!(result[1].to_bits(), (-0.0f32).to_bits());
}

#[test]
fn normalize_along_an_axis_gives_the_unit_vector_of_the_axis() {
    let mut state: u64 = 26;
    for _ in 0..100000 {
        // magnitudes from 2^-63 up to, but not including, 2^64
        let magnitude = 0x2000_0000 + next(&mut state) % (0x5F80_0000 - 0x2000_0000);
        let x = f32::from_bits(magnitude | (next(&mut state) & 0x8000_0000));
        let z = f32::from_bits(next(&mut state) & 0x8000_0000);
        let unit = normalize(pair([x, z]));
        assert_eq!(unit[0].to_bits(), 1.0f32.copysign(x).to_bits());
        assert_eq!(unit[1].to_bits(), z.to_bits());
        let unit = normalize(pair([z, x]));
        assert_eq!(unit[0].to_bits(), z.to_bits());
        assert_eq!(unit[1].to_bits(), 1.0f32.copysign(x).to_bits());
    }
    for magnitude in [0x2000_0000u32, 0x2000_0001, 0x5F7F_FFFF, 0x5F7F_FFFE, 0x3F80_0000] {
        let unit = normalize(pair([f32::from_bits(magnitude), 0.0]));
        assert_eq!(floats(unit), [1.0, 0.0]);
    }
}

#[test]
fn normalize_of_a_measurable_vector_has_a_length_within_a_few_steps_of_one() {
    let mut state: u64 = 27;
    let mut check = |a: u32, b: u32| {
        for &(x, y) in [(a, b), (b, a)].iter() {
            let unit = normalize([Single::from_bits(x), Single::from_bits(y)]);
            let length = unit[0].mul(unit[0]).add(unit[1].mul(unit[1])).sqrt().to_bits();
            assert!(
                0x3F7F_FFFA <= length && length <= 0x3F80_0003,
                "{:#x} {:#x}: {:#x}",
                x,
                y,
                length
            );
        }
    };
    for _ in 0..200000 {
        // the larger magnitude from 2^-62 up to, but not including, 2^63
        let a = 0x2080_0000 + next(&mut state) % (0x5F00_0000 - 0x2080_0000);
        let b = next(&mut state) % (a + 1);
        check(a | (next(&mut state) & 0x8000_0000), b | (next(&mut state) & 0x8000_0000));
    }
    for _ in 0..200000 {
        // components of like size
        let a = 0x2080_0000 + next(&mut state) % (0x5F00_0000 - 0x2080_0000);
        let b = (a & 0x7F80_0000) | (next(&mut state) & 0x007F_FFFF);
        check(a.max(b), a.min(b));
    }
    for _ in 0..200000 {
        // a smaller component whose square or quotient falls below the normal range
        let a = 0x2080_0000 + next(&mut state) % (0x5F00_0000 - 0x2080_0000);
        let drop = (20 + next(&mut state) % 60) << 23;
        let b = (a.saturating_sub(drop) & 0x7F80_0000) | (next(&mut state) & 0x007F_FFFF);
        check(a, b.min(a));
    }
    let edges = [0x2080_0000u32, 0x2080_0001, 0x5EFF_FFFF, 0x3F80_0000, 0x40A0_0000];
    let smalls = [0u32, 1, 0x007F_FFFF, 0x0080_0000, 0x2000_0000, 0x2080_0000];
    for &a in edges.iter() {
        for &b in edges.iter().chain(smalls.iter()) {
            if b <= a {
                check(a, b);
            }
        }
    }
}
