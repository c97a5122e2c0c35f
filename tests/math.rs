use steam_tables::math::{double_linear_interpolate, linear_interpolate, Point2, Point3, SCALE};

fn q(whole: i64) -> i64 {
    whole * SCALE
}

#[test]
fn test_linear_interpolate() {
    let point0 = Point2(0, 0);
    let point1 = Point2(q(1), q(1));

    let x = SCALE / 2;
    let y = linear_interpolate(x, point0, point1);

    let x1 = q(1);
    let y1 = linear_interpolate(x1, point0, point1);

    assert_eq!(y, SCALE / 2);
    assert_eq!(y1, q(1));
    assert_eq!(linear_interpolate(0, point0, point1), 0);
}

#[test]
fn test_double_linear_interpolate() {
    let point_0_0 = Point3(q(5), q(100), q(2000));
    let point_0_1 = Point3(q(5), q(200), q(2020));
    let point_1_0 = Point3(q(15), q(100), q(1900));
    let point_1_1 = Point3(q(15), q(200), q(1920));

    let (x, y) = (q(10), q(150));
    let u = q(1960);

    assert_eq!(
        double_linear_interpolate(x, y, point_0_0, point_0_1, point_1_0, point_1_1),
        u
    );
}

#[test]
fn linear_interpolate_rounds_down() {
    // 1/3 of the way from 0 to 1 unit: 333333333.33... units, rounded down.
    assert_eq!(linear_interpolate(1, Point2(0, 0), Point2(3, SCALE)), 333_333_333);
    // Falling values round toward negative infinity too.
    assert_eq!(linear_interpolate(1, Point2(0, 0), Point2(3, -SCALE)), -333_333_334);
}

#[test]
fn linear_interpolate_with_points_in_either_order() {
    let a = Point2(q(2), q(10));
    let b = Point2(q(4), q(20));
    assert_eq!(linear_interpolate(q(3), a, b), q(15));
    assert_eq!(linear_interpolate(q(3), b, a), q(15));
}

#[test]
fn bilinear_at_each_corner_gives_that_corner() {
    let p00 = Point3(q(5), q(100), q(2000));
    let p01 = Point3(q(5), q(200), q(2020));
    let p10 = Point3(q(15), q(100), q(1900));
    let p11 = Point3(q(15), q(200), q(1920));
    for p in [p00, p01, p10, p11] {
        assert_eq!(double_linear_interpolate(p.0, p.1, p00, p01, p10, p11), p.2);
    }
}
