use flowfield::{normalize, BoundedFlowfield2D, Flowfield2D, Pole2D, Single, Vector2};

fn single(x: f32) -> Single {
    Single::from_bits(x.to_bits())
}

fn float(x: Single) -> f32 {
    f32::from_bits(x.to_bits())
}

fn pair(v: [f32; 2]) -> Vector2<Single> {
    [single(v[0]), single(v[1])]
}

fn floats(v: Vector2<Single>) -> [f32; 2] {
    [float(v[0]), float(v[1])]
}

#[test]
fn it_works() {
    let result = 2 + 2;
    assert_eq!(result, 4);
}

#[test]
fn normalize_returns_0_0_if_no_length() {
    let start = [0., 0.];
    let result = floats(normalize(pair(start)));
    assert_eq!(result[0], 0.);
    assert_eq!(result[1], 0.);
}

#[test]
fn normalize_returns_correctly_for_horizontal_vector() {
    let start = [15., 0.];
    let result = floats(normalize(pair(start)));
    assert_eq!(result[0], 1.);
    assert_eq!(result[1], 0.);
}

#[test]
fn normalize_returns_correctly_for_vertical_vector() {
    let start = [0., 42.];
    let result = floats(normalize(pair(start)));
    assert_eq!(result[0], 0.);
    assert_eq!(result[1], 1.);
}

#[test]
fn normalize_returns_correctly_for_angled_vector() {
    let start = [3., 4.];
    let result = floats(normalize(pair(start)));
    assert_eq!(result[0], 3. / 5.);
    assert_eq!(result[1], 4. / 5.);
}

#[test]
fn get_force_vector_returns_high_val_nbr_if_at_center() {
    let x = 542.;
    let y = -123.;
    let pole = Pole2D::new(single(x), single(y), single(10.));
    let result = floats(pole.get_force_vector(single(6.6), pair([x, y])));

    assert_eq!(result[0], f32::MAX);
    assert_eq!(result[1], f32::MAX);
}

#[test]
fn get_vec_returns_0_0_for_default_bounded_flow_field_2d() {
    let bounded = BoundedFlowfield2D::default();

    let zero = floats(bounded.get_vec(single(0.0), single(0.0)));
    let first = floats(bounded.get_vec(single(1.0), single(3.2)));
    let second = floats(bounded.get_vec(single(-4.1223), single(2.5)));
    let third = floats(bounded.get_vec(single(-5.21), single(-2.789)));
    let fourth = floats(bounded.get_vec(single(6.2), single(0.45)));

    assert_eq!(zero, [0., 0.]);
    assert_eq!(first, [0., 0.]);
    assert_eq!(second, [0., 0.]);
    assert_eq!(third, [0., 0.]);
    assert_eq!(fourth, [0., 0.]);
}
