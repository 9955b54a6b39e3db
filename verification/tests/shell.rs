use std::collections::HashSet;

use outside_surface::inside::find_inside_points;
use outside_surface::inside::inside_both;
use outside_surface::intersection::ray_intersects_batch;
use outside_surface::shell::drop_triangles_touching;
use outside_surface::shell::extract_outer;
use outside_surface::shell::remove_unused_points;
use outside_surface::tiles::distribute_points_to_tiles;
use outside_surface::tiles::distribute_triangles_to_tiles;
use outside_surface::tiles::get_step_sizes;
use outside_surface::tiles::TileMap;
use outside_surface::vector::Vector3;

fn units(x: f64) -> i128 {
    (x * 1e7).round() as i128
}

fn point(x: f64, y: f64, z: f64) -> Vector3 {
    Vector3 { x: units(x), y: units(y), z: units(z) }
}

fn set_of(items: &[usize]) -> HashSet<usize> {
    items.iter().copied().collect()
}

/// The corners of the unit cube: corner `4 x + 2 y + z` is at `(x, y, z)`.
fn cube_points() -> Vec<Vector3> {
    let mut points = Vec::new();
    for x in 0..2 {
        for y in 0..2 {
            for z in 0..2 {
                points.push(point(x as f64, y as f64, z as f64));
            }
        }
    }
    points
}

/// Twelve triangles, wound so that their normals point out of the cube.
fn cube_triangles() -> Vec<(usize, usize, usize)> {
    vec![
        (0, 1, 3),
        (0, 3, 2),
        (4, 7, 5),
        (4, 6, 7),
        (0, 5, 1),
        (0, 4, 5),
        (2, 3, 7),
        (2, 7, 6),
        (0, 2, 6),
        (0, 6, 4),
        (1, 7, 3),
        (1, 5, 7),
    ]
}

fn classify(points: &Vec<Vector3>, triangles: &Vec<(usize, usize, usize)>) -> (HashSet<usize>, HashSet<usize>) {
    let step = get_step_sizes(100, points);
    let (points_x, points_y) = distribute_points_to_tiles(points, step);
    let (triangles_x, triangles_y) = distribute_triangles_to_tiles(points, triangles, step);
    let along_x = find_inside_points(
        points,
        &points_x,
        &triangles_x,
        &point(1.0, 0.0, 0.0),
        &point(-1.0, 0.0, 0.0),
    );
    let along_y = find_inside_points(
        points,
        &points_y,
        &triangles_y,
        &point(0.0, 1.0, 0.0),
        &point(0.0, -1.0, 0.0),
    );
    (along_x, along_y)
}

#[test]
fn interior_points_of_a_cube_are_inside() {
    let mut points = cube_points();
    points.push(point(0.5, 0.5, 0.5));
    points.push(point(0.25, 0.5, 0.75));
    points.push(point(0.9, 0.1, 0.3));
    let triangles = cube_triangles();
    let (along_x, along_y) = classify(&points, &triangles);
    assert_eq!(along_x, set_of(&[8, 9, 10]));
    assert_eq!(along_y, set_of(&[8, 9, 10]));
    let inside = inside_both(&along_x, &along_y, points.len());
    assert_eq!(inside, set_of(&[8, 9, 10]));
}

#[test]
fn corners_of_a_cube_are_outside() {
    let points = cube_points();
    let triangles = cube_triangles();
    let (along_x, along_y) = classify(&points, &triangles);
    assert!(along_x.is_empty());
    assert!(along_y.is_empty());
}

#[test]
fn points_beside_a_cube_are_outside() {
    let mut points = cube_points();
    points.push(point(0.5, 0.5, 1.5));
    points.push(point(0.5, 0.5, -0.5));
    let triangles = cube_triangles();
    let (along_x, along_y) = classify(&points, &triangles);
    assert!(along_x.is_empty());
    assert!(along_y.is_empty());
}

#[test]
fn a_point_under_an_open_sheet_is_not_inside() {
    // One square sheet at x = 1: rays along -x from a point in front of it
    // meet nothing, so the point is not enclosed.
    let points = vec![
        point(1.0, 0.0, 0.0),
        point(1.0, 1.0, 0.0),
        point(1.0, 1.0, 1.0),
        point(1.0, 0.0, 1.0),
        point(0.5, 0.5, 0.5),
    ];
    let triangles = vec![(0, 1, 2), (0, 2, 3)];
    let (along_x, _) = classify(&points, &triangles);
    assert!(along_x.is_empty());
}

#[test]
fn extraction_of_a_convex_hull_is_idempotent() {
    let mut points = cube_points();
    points.push(point(0.5, 0.5, 0.5));
    let triangles = cube_triangles();

    let (along_x, along_y) = classify(&points, &triangles);
    let inside = inside_both(&along_x, &along_y, points.len());
    let outer = extract_outer(&triangles, &inside);
    assert_eq!(outer, triangles);
    let (points_once, triangles_once) = remove_unused_points(&points, &outer);
    assert_eq!(points_once, cube_points());
    assert_eq!(triangles_once, triangles);

    let (along_x, along_y) = classify(&points_once, &triangles_once);
    let inside = inside_both(&along_x, &along_y, points_once.len());
    assert!(inside.is_empty());
    let outer_twice = extract_outer(&triangles_once, &inside);
    let (points_twice, triangles_twice) = remove_unused_points(&points_once, &outer_twice);
    assert_eq!(points_twice, points_once);
    assert_eq!(triangles_twice, triangles_once);
}

#[test]
fn geometry_inside_a_cube_is_removed() {
    // A small triangle floats inside the cube: its corners are enclosed.
    let mut points = cube_points();
    points.push(point(0.4, 0.4, 0.4));
    points.push(point(0.6, 0.4, 0.4));
    points.push(point(0.4, 0.6, 0.4));
    let mut triangles = cube_triangles();
    triangles.insert(3, (8, 9, 10));
    let (along_x, along_y) = classify(&points, &triangles);
    let inside = inside_both(&along_x, &along_y, points.len());
    assert_eq!(inside, set_of(&[8, 9, 10]));
    let outer = extract_outer(&triangles, &inside);
    assert_eq!(outer, cube_triangles());
    let (new_points, new_triangles) = remove_unused_points(&points, &outer);
    assert_eq!(new_points, cube_points());
    assert_eq!(new_triangles, cube_triangles());
}

#[test]
fn a_point_in_a_cell_without_triangles_is_outside() {
    let points = vec![point(0.0, 0.0, 0.0), point(1.0, 0.0, 0.0), point(0.0, 1.0, 0.0), point(9.0, 9.0, 9.0)];
    let mut point_tiles: TileMap<usize> = TileMap::new();
    point_tiles.insert((9, 9), 3);
    let triangle_tiles: TileMap<(usize, usize, usize)> = TileMap::new();
    let inside = find_inside_points(
        &points,
        &point_tiles,
        &triangle_tiles,
        &point(1.0, 0.0, 0.0),
        &point(-1.0, 0.0, 0.0),
    );
    assert!(inside.is_empty());
}

#[test]
fn only_the_triangles_of_the_same_cell_are_tested() {
    // The point lies between two sheets, but only one sheet is bucketed in
    // its cell: a hit one way is not enough.
    let points = vec![
        point(1.0, 0.0, 0.0),
        point(1.0, 1.0, 0.0),
        point(1.0, 0.0, 1.0),
        point(-1.0, 0.0, 0.0),
        point(-1.0, 1.0, 0.0),
        point(-1.0, 0.0, 1.0),
        point(0.0, 0.25, 0.25),
    ];
    let mut point_tiles: TileMap<usize> = TileMap::new();
    point_tiles.insert((0, 0), 6);
    let mut one_sheet: TileMap<(usize, usize, usize)> = TileMap::new();
    one_sheet.insert((0, 0), (0, 1, 2));
    one_sheet.insert((5, 5), (3, 4, 5));
    let right = point(1.0, 0.0, 0.0);
    let left = point(-1.0, 0.0, 0.0);
    assert!(find_inside_points(&points, &point_tiles, &one_sheet, &right, &left).is_empty());
    let mut both_sheets: TileMap<(usize, usize, usize)> = TileMap::new();
    both_sheets.insert((0, 0), (0, 1, 2));
    both_sheets.insert((0, 0), (3, 4, 5));
    assert_eq!(find_inside_points(&points, &point_tiles, &both_sheets, &right, &left), set_of(&[6]));
}

#[test]
fn inside_both_is_the_intersection() {
    let a = set_of(&[0, 2, 4, 6]);
    let b = set_of(&[1, 2, 3, 6, 7]);
    assert_eq!(inside_both(&a, &b, 10), set_of(&[2, 6]));
    assert_eq!(inside_both(&a, &b, 6), set_of(&[2]));
    assert_eq!(inside_both(&a, &HashSet::new(), 10), HashSet::new());
}

#[test]
fn extraction_drops_triangles_with_an_inside_corner() {
    let triangles = vec![(0, 1, 2), (1, 2, 3), (3, 4, 5), (4, 5, 6), (7, 8, 3)];
    let outer = extract_outer(&triangles, &set_of(&[3]));
    assert_eq!(outer, vec![(0, 1, 2), (4, 5, 6)]);
    assert_eq!(extract_outer(&triangles, &HashSet::new()), triangles);
    assert_eq!(extract_outer(&triangles, &set_of(&[1, 4, 8])), Vec::new());
    assert_eq!(drop_triangles_touching(&triangles, &set_of(&[0, 6])), vec![(1, 2, 3), (3, 4, 5), (7, 8, 3)]);
}

#[test]
fn unused_points_are_removed_in_order() {
    let points = vec![
        point(0.0, 0.0, 0.0),
        point(1.0, 0.0, 0.0),
        point(2.0, 0.0, 0.0),
        point(3.0, 0.0, 0.0),
        point(4.0, 0.0, 0.0),
        point(5.0, 0.0, 0.0),
    ];
    let triangles = vec![(5, 2, 4), (2, 4, 5)];
    let (new_points, new_triangles) = remove_unused_points(&points, &triangles);
    assert_eq!(new_points, vec![point(2.0, 0.0, 0.0), point(4.0, 0.0, 0.0), point(5.0, 0.0, 0.0)]);
    assert_eq!(new_triangles, vec![(2, 0, 1), (0, 1, 2)]);
}

#[test]
fn compaction_never_adds_points_and_keeps_indices_valid() {
    let points: Vec<Vector3> = (0..20).map(|i| point(i as f64, 0.0, 0.0)).collect();
    let triangles = vec![(19, 0, 7), (7, 3, 19), (11, 12, 13), (13, 12, 0)];
    let (new_points, new_triangles) = remove_unused_points(&points, &triangles);
    assert!(new_points.len() <= points.len());
    assert_eq!(new_points.len(), 7);
    for &(a, b, c) in &new_triangles {
        assert!(a < new_points.len() && b < new_points.len() && c < new_points.len());
    }
    // Every triangle still has the same corners in space.
    for (old, new) in triangles.iter().zip(new_triangles.iter()) {
        assert_eq!(points[old.0], new_points[new.0]);
        assert_eq!(points[old.1], new_points[new.1]);
        assert_eq!(points[old.2], new_points[new.2]);
    }
    // Every point that is left is the corner of some triangle.
    for q in 0..new_points.len() {
        assert!(new_triangles.iter().any(|t| t.0 == q || t.1 == q || t.2 == q));
    }
}

#[test]
fn compaction_of_nothing() {
    let points = vec![point(0.0, 0.0, 0.0), point(1.0, 0.0, 0.0)];
    let (new_points, new_triangles) = remove_unused_points(&points, &Vec::new());
    assert!(new_points.is_empty());
    assert!(new_triangles.is_empty());
    let (new_points, new_triangles) = remove_unused_points(&Vec::new(), &Vec::new());
    assert!(new_points.is_empty());
    assert!(new_triangles.is_empty());
}

#[test]
fn compaction_keeps_a_full_mesh() {
    let points = cube_points();
    let triangles = cube_triangles();
    let (new_points, new_triangles) = remove_unused_points(&points, &triangles);
    assert_eq!(new_points, points);
    assert_eq!(new_triangles, triangles);
}

#[test]
fn the_grid_does_not_change_the_result() {
    // Two nested boxes, a sheet between them, and points all over.
    let mut points = Vec::new();
    for (low, size) in [(0.0, 4.0), (1.0, 2.0)] {
        for x in 0..2 {
            for y in 0..2 {
                for z in 0..2 {
                    points.push(point(
                        low + size * x as f64,
                        low + size * y as f64,
                        low + size * z as f64,
                    ));
                }
            }
        }
    }
    points.push(point(0.5, 0.5, 0.5));
    points.push(point(3.5, 0.5, 0.5));
    points.push(point(0.5, 3.5, 3.5));
    let mut triangles = cube_triangles();
    let inner: Vec<(usize, usize, usize)> =
        cube_triangles().iter().map(|&(a, b, c)| (a + 8, b + 8, c + 8)).collect();
    triangles.extend(inner);
    triangles.push((16, 17, 18));
    for i in 0..7 {
        for j in 0..7 {
            for k in 0..7 {
                points.push(point(
                    -1.0 + i as f64 * 0.97,
                    -1.0 + j as f64 * 1.01,
                    -1.0 + k as f64 * 0.93,
                ));
            }
        }
    }
    let (along_x, along_y) = classify(&points, &triangles);
    let right = point(1.0, 0.0, 0.0);
    let left = point(-1.0, 0.0, 0.0);
    let up = point(0.0, 1.0, 0.0);
    let down = point(0.0, -1.0, 0.0);
    let mut expected_x = HashSet::new();
    let mut expected_y = HashSet::new();
    for (p, origin) in points.iter().enumerate() {
        if ray_intersects_batch(origin, &right, &points, &triangles)
            && ray_intersects_batch(origin, &left, &points, &triangles)
        {
            expected_x.insert(p);
        }
        if ray_intersects_batch(origin, &up, &points, &triangles)
            && ray_intersects_batch(origin, &down, &points, &triangles)
        {
            expected_y.insert(p);
        }
    }
    assert_eq!(along_x, expected_x);
    assert_eq!(along_y, expected_y);
    assert!(expected_x.len() > 20);
    assert!(expected_x.len() < points.len());
}

#[test]
fn points_well_within_a_box_are_inside() {
    // A box of 2 by 3 by 5 that does not begin at the origin.
    let (low, high) = (point(-1.0, 2.0, 10.0), point(1.0, 5.0, 15.0));
    let mut points = Vec::new();
    for x in [low.x, high.x] {
        for y in [low.y, high.y] {
            for z in [low.z, high.z] {
                points.push(Vector3 { x, y, z });
            }
        }
    }
    // Two units from a face is within, one unit is not: the ray parameter
    // must exceed the tolerance.
    points.push(Vector3 { x: low.x + 2, y: low.y + 2, z: low.z });
    points.push(Vector3 { x: high.x - 2, y: high.y - 2, z: high.z });
    points.push(Vector3 { x: low.x + 2, y: high.y - 2, z: low.z + 7 });
    points.push(Vector3 { x: 0, y: low.y + 15_000_000, z: high.z - 1 });
    points.push(Vector3 { x: low.x + 1, y: low.y + 2, z: low.z + 2 });
    points.push(Vector3 { x: low.x + 2, y: high.y - 1, z: low.z + 2 });
    points.push(Vector3 { x: low.x + 2, y: low.y + 2, z: low.z - 1 });
    let triangles = cube_triangles();
    let (along_x, along_y) = classify(&points, &triangles);
    let inside = inside_both(&along_x, &along_y, points.len());
    assert_eq!(inside, set_of(&[8, 9, 10, 11]));
}
