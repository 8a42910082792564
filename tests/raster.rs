use raytracer::raster;

#[test]
fn shallow_line() {
    assert_eq!(raster::line(0, 0, 5, 2), vec![(0, 0), (1, 0), (2, 1), (3, 1), (4, 2), (5, 2)]);
}

#[test]
fn steep_line_going_left() {
    assert_eq!(raster::line(3, 1, 1, 6), vec![(3, 1), (3, 2), (2, 3), (2, 4), (1, 5), (1, 6)]);
}

#[test]
fn diagonal_line() {
    assert_eq!(raster::line(0, 0, 3, 3), vec![(0, 0), (1, 1), (2, 2), (3, 3)]);
}

#[test]
fn single_point() {
    assert_eq!(raster::line(2, 2, 2, 2), vec![(2, 2)]);
}

#[test]
fn horizontal_and_vertical_lines() {
    assert_eq!(raster::line(-2, 4, 3, 4), vec![(-2, 4), (-1, 4), (0, 4), (1, 4), (2, 4), (3, 4)]);
    assert_eq!(raster::line(7, -1, 7, -4), vec![(7, -1), (7, -2), (7, -3), (7, -4)]);
}

#[test]
fn endpoints_at_integer_limits() {
    assert_eq!(
        raster::line(i32::MAX - 3, i32::MIN, i32::MAX, i32::MIN + 1),
        vec![
            (i32::MAX - 3, i32::MIN),
            (i32::MAX - 2, i32::MIN),
            (i32::MAX - 1, i32::MIN + 1),
            (i32::MAX, i32::MIN + 1),
        ]
    );
}
