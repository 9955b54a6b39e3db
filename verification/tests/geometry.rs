use outside_surface::intersection::ray_intersects_batch;
use outside_surface::intersection::ray_intersects_triangle;
use outside_surface::vector::all_points_in_range;
use outside_surface::vector::vec_cross_vec;
use outside_surface::vector::vec_dot_vec;
use outside_surface::vector::vec_minus_vec;
use outside_surface::triangle::Triangle;
use outside_surface::vector::Vector3;
use outside_surface::vector::COORDINATE_LIMIT;
use outside_surface::vector::SCALE;

fn units(x: f64) -> i128 {
    (x * 1e7).round() as i128
}

fn point(x: f64, y: f64, z: f64) -> Vector3 {
    Vector3 { x: units(x), y: units(y), z: units(z) }
}

fn raw(x: i128, y: i128, z: i128) -> Vector3 {
    Vector3 { x, y, z }
}

fn unit_triangle() -> Triangle {
    Triangle {
        vertex1: point(0.0, 0.0, 0.0),
        vertex2: point(1.0, 0.0, 0.0),
        vertex3: point(0.0, 1.0, 0.0),
    }
}

#[test]
fn scale_is_ten_million_units() {
    assert_eq!(SCALE, 10_000_000);
    assert_eq!(units(1.0), SCALE);
    assert_eq!(COORDINATE_LIMIT, 1_099_511_627_776);
}

#[test]
fn cross_product_of_axes() {
    let r = vec_cross_vec(&raw(1, 0, 0), &raw(0, 1, 0));
    assert_eq!(r, raw(0, 0, 1));
}

#[test]
fn cross_product_exact_value() {
    let r = vec_cross_vec(&raw(2, 3, 4), &raw(5, 6, 7));
    assert_eq!(r, raw(-3, 6, -3));
}

#[test]
fn difference_exact_value() {
    let r = vec_minus_vec(&raw(5, 7, 9), &raw(1, 2, 3));
    assert_eq!(r, raw(4, 5, 6));
}

#[test]
fn dot_product_exact_value() {
    assert_eq!(vec_dot_vec(&raw(1, 2, 3), &raw(4, 5, 6)), 32);
    assert_eq!(vec_dot_vec(&raw(1, 0, 0), &raw(0, 1, 0)), 0);
}

#[test]
fn range_check_of_points() {
    let inside = vec![raw(COORDINATE_LIMIT, -COORDINATE_LIMIT, 0), point(1.0, 2.0, 3.0)];
    assert!(all_points_in_range(&inside));
    let outside = vec![point(1.0, 2.0, 3.0), raw(0, COORDINATE_LIMIT + 1, 0)];
    assert!(!all_points_in_range(&outside));
    assert!(raw(0, 0, -COORDINATE_LIMIT).is_in_range());
    assert!(!raw(0, 0, -COORDINATE_LIMIT - 1).is_in_range());
    assert!(all_points_in_range(&Vec::new()));
}

#[test]
fn ray_through_interior_hits() {
    let t = unit_triangle();
    assert!(ray_intersects_triangle(&point(0.25, 0.25, 1.0), &point(0.0, 0.0, -1.0), &t));
}

#[test]
fn ray_from_below_hits_with_negative_determinant() {
    let t = unit_triangle();
    assert!(ray_intersects_triangle(&point(0.25, 0.25, -1.0), &point(0.0, 0.0, 1.0), &t));
}

#[test]
fn ray_pointing_away_misses() {
    let t = unit_triangle();
    assert!(!ray_intersects_triangle(&point(0.25, 0.25, 1.0), &point(0.0, 0.0, 1.0), &t));
}

#[test]
fn ray_beside_triangle_misses() {
    let t = unit_triangle();
    assert!(!ray_intersects_triangle(&point(2.0, 2.0, 1.0), &point(0.0, 0.0, -1.0), &t));
    assert!(!ray_intersects_triangle(&point(-0.25, 0.25, 1.0), &point(0.0, 0.0, -1.0), &t));
    assert!(!ray_intersects_triangle(&point(0.25, -0.25, 1.0), &point(0.0, 0.0, -1.0), &t));
}

#[test]
fn ray_in_the_plane_is_parallel() {
    let t = unit_triangle();
    assert!(!ray_intersects_triangle(&point(-1.0, 0.25, 0.0), &point(1.0, 0.0, 0.0), &t));
}

#[test]
fn edges_and_corners_count_as_hits() {
    let t = unit_triangle();
    let down = point(0.0, 0.0, -1.0);
    assert!(ray_intersects_triangle(&point(0.5, 0.5, 1.0), &down, &t));
    assert!(ray_intersects_triangle(&point(0.0, 0.0, 1.0), &down, &t));
    assert!(ray_intersects_triangle(&point(1.0, 0.0, 1.0), &down, &t));
    assert!(ray_intersects_triangle(&point(0.0, 1.0, 1.0), &down, &t));
    assert!(ray_intersects_triangle(&point(0.5, 0.0, 1.0), &down, &t));
    assert!(!ray_intersects_triangle(&point(0.5, 0.5000001, 1.0), &down, &t));
}

#[test]
fn ray_parameter_must_exceed_the_tolerance() {
    let t = unit_triangle();
    let down = point(0.0, 0.0, -1.0);
    let quarter = units(0.25);
    // The ray parameter is the height in units over SCALE: one unit of
    // height is exactly the tolerance, which does not count.
    assert!(!ray_intersects_triangle(&raw(quarter, quarter, 0), &down, &t));
    assert!(!ray_intersects_triangle(&raw(quarter, quarter, 1), &down, &t));
    assert!(ray_intersects_triangle(&raw(quarter, quarter, 2), &down, &t));
}

#[test]
fn small_determinant_counts_as_parallel() {
    let down = point(0.0, 0.0, -1.0);
    let origin = raw(1000, 1000, SCALE);
    // The determinant is the square of the leg times SCALE: 9e13 is below
    // the limit of 1e14, 1.6e14 is not.
    let small = Triangle { vertex1: raw(0, 0, 0), vertex2: raw(3000, 0, 0), vertex3: raw(0, 3000, 0) };
    assert!(!ray_intersects_triangle(&origin, &down, &small));
    let large = Triangle { vertex1: raw(0, 0, 0), vertex2: raw(4000, 0, 0), vertex3: raw(0, 4000, 0) };
    assert!(ray_intersects_triangle(&origin, &down, &large));
}

#[test]
fn direction_need_not_be_normalized() {
    let t = unit_triangle();
    assert!(ray_intersects_triangle(&point(0.25, 0.25, 1.0), &point(0.0, 0.0, -7.5), &t));
    assert!(ray_intersects_triangle(&point(0.25, 0.25, 1.0), &raw(0, 0, -2), &t));
}

#[test]
fn determinant_at_the_tolerance_counts_as_parallel() {
    // The determinant is exactly the tolerance: 1e-3 * 1e-3 * 0.1 = 1e-7.
    let t = Triangle {
        vertex1: point(0.0, 0.0, 0.0),
        vertex2: point(0.001, 0.0, 0.0),
        vertex3: point(0.0, 0.001, 0.0),
    };
    let origin = point(0.00025, 0.00025, 1.0);
    assert!(!ray_intersects_triangle(&origin, &point(0.0, 0.0, -0.1), &t));
    assert!(!ray_intersects_triangle(&Vector3 { z: -origin.z, ..origin }, &point(0.0, 0.0, 0.1), &t));
    // One unit more in the direction takes it beyond the tolerance.
    assert!(ray_intersects_triangle(&origin, &raw(0, 0, -1_000_001), &t));
    assert!(!ray_intersects_triangle(&origin, &raw(0, 0, -999_999), &t));
    // The unit triangle with a direction of one unit has the same
    // determinant.
    assert!(!ray_intersects_triangle(&point(0.25, 0.25, 1.0), &raw(0, 0, -1), &unit_triangle()));
}

#[test]
fn slanted_ray_hits() {
    let t = unit_triangle();
    assert!(ray_intersects_triangle(&point(1.25, 1.25, 1.0), &point(-1.0, -1.0, -1.0), &t));
    assert!(!ray_intersects_triangle(&point(1.25, 1.25, 1.0), &point(1.0, 1.0, 1.0), &t));
}

#[test]
fn extreme_coordinates_are_handled() {
    let far = COORDINATE_LIMIT;
    let t = Triangle {
        vertex1: raw(-far, -far, 0),
        vertex2: raw(far, -far, 0),
        vertex3: raw(-far, far, 0),
    };
    assert!(ray_intersects_triangle(&raw(-far / 2, -far / 2, far), &raw(0, 0, -far), &t));
    assert!(!ray_intersects_triangle(&raw(far, far, far), &raw(0, 0, -far), &t));
}

#[test]
fn origin_outside_the_bounding_box_misses_both_ways() {
    let t = unit_triangle();
    let origin = point(5.0, 5.0, 5.0);
    for d in [point(1.0, 0.0, 0.0), point(0.0, 1.0, 0.0), point(0.0, 0.0, 1.0)] {
        let back = Vector3 { x: -d.x, y: -d.y, z: -d.z };
        assert!(!ray_intersects_triangle(&origin, &d, &t));
        assert!(!ray_intersects_triangle(&origin, &back, &t));
    }
    let below = point(-5.0, -5.0, -5.0);
    for d in [point(1.0, 0.0, 0.0), point(0.0, 1.0, 0.0), point(0.0, 0.0, 1.0)] {
        let back = Vector3 { x: -d.x, y: -d.y, z: -d.z };
        assert!(!ray_intersects_triangle(&below, &d, &t));
        assert!(!ray_intersects_triangle(&below, &back, &t));
    }
}

#[test]
fn batch_hits_if_any_triangle_is_hit() {
    let points = vec![
        point(0.0, 0.0, 0.0),
        point(1.0, 0.0, 0.0),
        point(0.0, 1.0, 0.0),
        point(10.0, 10.0, 0.0),
        point(11.0, 10.0, 0.0),
        point(10.0, 11.0, 0.0),
    ];
    let triangles = vec![(3, 4, 5), (0, 1, 2)];
    let down = point(0.0, 0.0, -1.0);
    assert!(ray_intersects_batch(&point(0.25, 0.25, 1.0), &down, &points, &triangles));
    assert!(ray_intersects_batch(&point(10.25, 10.25, 1.0), &down, &points, &triangles));
    assert!(!ray_intersects_batch(&point(5.0, 5.0, 1.0), &down, &points, &triangles));
    assert!(!ray_intersects_batch(&point(0.25, 0.25, 1.0), &down, &points, &Vec::new()));
    let only_far = vec![(3, 4, 5)];
    assert!(!ray_intersects_batch(&point(0.25, 0.25, 1.0), &down, &points, &only_far));
}
