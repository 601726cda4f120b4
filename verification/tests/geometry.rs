use automaton_engine::{coordinate_shift_to, reflect_x, reflect_xy, reflect_y, wrap_coordinates};

#[test]
fn reflecting_twice_gives_the_point_back() {
    let p = (7, -3);
    assert_eq!(reflect_x(reflect_x(p)), p);
    assert_eq!(reflect_y(reflect_y(p)), p);
    assert_eq!(reflect_xy(reflect_xy(p)), p);
}

#[test]
fn reflecting_through_the_origin_is_both_axes() {
    let p = (-2, 9);
    assert_eq!(reflect_xy(p), reflect_x(reflect_y(p)));
    assert_eq!(reflect_xy(p), reflect_y(reflect_x(p)));
}

#[test]
fn shift_reads_the_centre_as_signed() {
    assert_eq!(coordinate_shift_to((-1, -6), (0, 10)), (-1, 4));
    assert_eq!(coordinate_shift_to((1, 2), (u32::MAX, 0)), (0, 2));
}

#[test]
fn wrap_keeps_points_on_the_torus() {
    assert_eq!(wrap_coordinates((0, 63), (64, 64)), (0, 63));
    assert_eq!(wrap_coordinates((-1, 64), (64, 64)), (63, 0));
    assert_eq!(wrap_coordinates((-64, 129), (64, 64)), (0, 1));
    assert_eq!(wrap_coordinates((5, -3), (3, 7)), (2, 4));
}
