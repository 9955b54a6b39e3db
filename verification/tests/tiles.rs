use outside_surface::triangle::all_triangles_valid;
use outside_surface::tiles::distribute_points_to_tiles;
use outside_surface::tiles::distribute_triangles_to_tiles;
use outside_surface::tiles::get_step_sizes;
use outside_surface::tiles::tile_index;
use outside_surface::tiles::TileMap;
use outside_surface::vector::Vector3;

fn units(x: f64) -> i128 {
    (x * 1e7).round() as i128
}

fn point(x: f64, y: f64, z: f64) -> Vector3 {
    Vector3 { x: units(x), y: units(y), z: units(z) }
}

#[test]
fn test_tile_index() {
    assert_eq!(tile_index(units(0.4), units(0.0), units(1.0)), 0);
    assert_eq!(tile_index(units(-0.4), units(0.0), units(1.0)), -1);
    assert_eq!(tile_index(units(-0.4), units(0.0), units(0.4)), -1);
    assert_eq!(tile_index(units(-0.4000001), units(0.0), units(0.4)), -2);
}

#[test]
fn tiles_test_tile_index() {
    assert_eq!(tile_index(4_000_000, 0, 10_000_000), 0);
    assert_eq!(tile_index(-4_000_000, 0, 10_000_000), -1);
    assert_eq!(tile_index(-4_000_000, 0, 4_000_000), -1);
    assert_eq!(tile_index(-4_000_001, 0, 4_000_000), -2);
}

#[test]
fn tile_index_is_a_floor() {
    assert_eq!(tile_index(8, 0, 2), 4);
    assert_eq!(tile_index(7, 0, 2), 3);
    assert_eq!(tile_index(-7, 0, 2), -4);
    assert_eq!(tile_index(-8, 0, 2), -4);
    assert_eq!(tile_index(-9, 0, 2), -5);
    assert_eq!(tile_index(0, 0, 2), 0);
    assert_eq!(tile_index(1, 0, 2), 0);
    assert_eq!(tile_index(-1, 0, 2), -1);
}

#[test]
fn tile_index_counts_from_the_origin() {
    assert_eq!(tile_index(10, 4, 3), 2);
    assert_eq!(tile_index(4, 10, 3), -2);
    assert_eq!(tile_index(3, 10, 3), -3);
}

#[test]
fn tile_index_with_negative_step() {
    assert_eq!(tile_index(7, 0, -2), -4);
    assert_eq!(tile_index(-7, 0, -2), 3);
    assert_eq!(tile_index(8, 0, -2), -4);
    assert_eq!(tile_index(0, 0, -2), 0);
}

#[test]
fn tile_index_with_zero_step() {
    assert_eq!(tile_index(5, 0, 0), isize::MAX);
    assert_eq!(tile_index(-5, 0, 0), isize::MIN);
    assert_eq!(tile_index(0, 0, 0), 0);
    assert_eq!(tile_index(3, 3, 0), 0);
}

#[test]
fn tile_index_saturates() {
    assert_eq!(tile_index(i128::MAX, 0, 1), isize::MAX);
    assert_eq!(tile_index(i128::MIN, 0, 1), isize::MIN);
    assert_eq!(tile_index(i128::MAX, 0, -1), isize::MIN);
    assert_eq!(tile_index(i128::MIN, 0, i128::MIN), 1);
    assert_eq!(tile_index(i128::MAX, 0, i128::MIN), -1);
    assert_eq!(tile_index(i128::MAX, 0, i128::MAX), 1);
}

#[test]
fn step_sizes_divide_the_extent() {
    let points = vec![point(0.0, 0.0, 0.0), point(1.0, 2.0, 3.0), point(0.5, -2.0, 1.0)];
    let step = get_step_sizes(100, &points);
    assert_eq!(step, Vector3 { x: 100_000, y: 400_000, z: 300_000 });
}

#[test]
fn step_sizes_round_up() {
    let points = vec![Vector3 { x: 0, y: 10, z: -5 }, Vector3 { x: 250, y: 109, z: 5 }];
    assert_eq!(get_step_sizes(100, &points), Vector3 { x: 3, y: 1, z: 1 });
    assert_eq!(get_step_sizes(1, &points), Vector3 { x: 250, y: 99, z: 10 });
    assert_eq!(get_step_sizes(99, &points), Vector3 { x: 3, y: 1, z: 1 });
    assert_eq!(get_step_sizes(250, &points), Vector3 { x: 1, y: 1, z: 1 });
}

#[test]
fn a_thin_mesh_across_zero_has_few_cells() {
    // The extent along z is far less than a hundred units, on both sides of
    // zero: the step is one unit, not zero.
    let points = vec![
        Vector3 { x: 0, y: 0, z: -3 },
        Vector3 { x: 10_000_000, y: 0, z: 4 },
        Vector3 { x: 0, y: 10_000_000, z: 0 },
    ];
    let step = get_step_sizes(100, &points);
    assert_eq!(step, Vector3 { x: 100_000, y: 100_000, z: 1 });
    let (along_x, along_y) = distribute_triangles_to_tiles(&points, &vec![(0, 1, 2)], step);
    assert_eq!(along_x.len(), 101 * 8);
    assert_eq!(along_y.len(), 101 * 8);
}

#[test]
fn step_sizes_of_degenerate_inputs() {
    let flat = vec![point(0.0, 0.0, 7.0), point(1.0, 1.0, 7.0)];
    assert_eq!(get_step_sizes(100, &flat).z, 0);
    let single = vec![point(3.0, 4.0, 5.0)];
    assert_eq!(get_step_sizes(100, &single), Vector3 { x: 0, y: 0, z: 0 });
    let none: Vec<Vector3> = Vec::new();
    assert_eq!(get_step_sizes(100, &none), Vector3 { x: 0, y: 0, z: 0 });
}

#[test]
fn tile_map_keeps_cells_apart() {
    let mut map: TileMap<usize> = TileMap::new();
    assert_eq!(map.len(), 0);
    assert!(map.get((0, 0)).is_none());
    map.insert((0, 0), 7);
    map.insert((-1, 2), 8);
    map.insert((0, 0), 9);
    map.insert((2, -1), 10);
    assert_eq!(map.len(), 3);
    assert_eq!(map.get((0, 0)), Some(&vec![7, 9]));
    assert_eq!(map.get((-1, 2)), Some(&vec![8]));
    assert_eq!(map.get((2, -1)), Some(&vec![10]));
    assert!(map.get((-1, -1)).is_none());
    assert_eq!(map.key_at(0), (0, 0));
    assert_eq!(map.key_at(1), (-1, 2));
    assert_eq!(map.cell_at(1), &vec![8]);
    assert_eq!(map.find((2, -1)), Some(2));
    assert_eq!(map.find((1, 1)), None);
}

#[test]
fn tile_map_handles_extreme_keys() {
    let mut map: TileMap<usize> = TileMap::new();
    map.insert((isize::MAX, isize::MIN), 1);
    map.insert((isize::MIN, isize::MAX), 2);
    map.insert((isize::MAX, isize::MAX), 3);
    map.insert((isize::MIN, isize::MIN), 4);
    assert_eq!(map.get((isize::MAX, isize::MIN)), Some(&vec![1]));
    assert_eq!(map.get((isize::MIN, isize::MAX)), Some(&vec![2]));
    assert_eq!(map.get((isize::MAX, isize::MAX)), Some(&vec![3]));
    assert_eq!(map.get((isize::MIN, isize::MIN)), Some(&vec![4]));
    assert_eq!(map.len(), 4);
}

#[test]
fn tile_map_fills_a_block() {
    let mut map: TileMap<usize> = TileMap::new();
    map.insert_block((0, 1), (1, 3), 5);
    assert_eq!(map.len(), 6);
    for i in 0..=1 {
        for j in 1..=3 {
            assert_eq!(map.get((i, j)), Some(&vec![5]));
        }
    }
    assert!(map.get((2, 1)).is_none());
    assert!(map.get((0, 0)).is_none());
    map.insert_block((3, 3), (2, 5), 6);
    assert_eq!(map.len(), 6);
}

#[test]
fn points_go_to_their_cells() {
    let points = vec![point(0.5, 0.5, 0.5), point(1.5, 0.5, 0.5), point(0.5, 1.5, 2.5), point(-0.5, 0.5, 0.5)];
    let step = point(1.0, 1.0, 1.0);
    let (along_x, along_y) = distribute_points_to_tiles(&points, step);
    assert_eq!(along_x.len(), 2);
    assert_eq!(along_x.get((0, 0)), Some(&vec![0, 1, 3]));
    assert_eq!(along_x.get((1, 2)), Some(&vec![2]));
    assert_eq!(along_y.len(), 4);
    assert_eq!(along_y.get((0, 0)), Some(&vec![0]));
    assert_eq!(along_y.get((1, 0)), Some(&vec![1]));
    assert_eq!(along_y.get((0, 2)), Some(&vec![2]));
    assert_eq!(along_y.get((-1, 0)), Some(&vec![3]));
    assert!(along_y.get((5, 5)).is_none());
}

#[test]
fn triangles_go_to_every_cell_of_their_box() {
    let points = vec![
        point(0.5, 0.5, 0.5),
        point(2.5, 0.5, 0.5),
        point(0.5, 1.5, 0.5),
        point(7.5, 7.5, 7.5),
        point(7.6, 7.5, 7.5),
        point(7.5, 7.6, 7.5),
    ];
    let triangles = vec![(0, 1, 2), (3, 4, 5)];
    let step = point(1.0, 1.0, 1.0);
    let (along_x, along_y) = distribute_triangles_to_tiles(&points, &triangles, step);
    assert_eq!(along_x.len(), 3);
    assert_eq!(along_x.get((0, 0)), Some(&vec![(0, 1, 2)]));
    assert_eq!(along_x.get((1, 0)), Some(&vec![(0, 1, 2)]));
    assert_eq!(along_x.get((7, 7)), Some(&vec![(3, 4, 5)]));
    assert_eq!(along_y.len(), 4);
    assert_eq!(along_y.get((0, 0)), Some(&vec![(0, 1, 2)]));
    // The middle cell holds no corner, but the bounding box overlaps it.
    assert_eq!(along_y.get((1, 0)), Some(&vec![(0, 1, 2)]));
    assert_eq!(along_y.get((2, 0)), Some(&vec![(0, 1, 2)]));
    assert_eq!(along_y.get((7, 7)), Some(&vec![(3, 4, 5)]));
    assert!(along_y.get((3, 0)).is_none());
}

#[test]
fn triangles_sharing_a_cell_keep_their_order() {
    let points = vec![point(0.1, 0.1, 0.1), point(0.2, 0.1, 0.1), point(0.1, 0.2, 0.1), point(0.3, 0.3, 0.3)];
    let triangles = vec![(0, 1, 2), (1, 2, 3), (0, 2, 3)];
    let (along_x, _) = distribute_triangles_to_tiles(&points, &triangles, point(1.0, 1.0, 1.0));
    assert_eq!(along_x.get((0, 0)), Some(&triangles));
}

#[test]
fn zero_step_on_a_flat_axis_keeps_one_row() {
    let points = vec![point(0.0, 0.0, 7.0), point(1.0, 0.0, 7.0), point(0.0, 1.0, 7.0)];
    let triangles = vec![(0, 1, 2)];
    let step = get_step_sizes(2, &points);
    assert_eq!(step.z, 0);
    let (along_x, along_y) = distribute_triangles_to_tiles(&points, &triangles, step);
    assert_eq!(along_x.len(), 3);
    assert_eq!(along_x.get((2, isize::MAX)), Some(&triangles));
    assert_eq!(along_y.len(), 3);
    let (points_x, _) = distribute_points_to_tiles(&points, step);
    assert_eq!(points_x.get((0, isize::MAX)), Some(&vec![0, 1]));
    assert_eq!(points_x.get((2, isize::MAX)), Some(&vec![2]));
}

#[test]
fn triangle_indices_are_checked() {
    assert!(all_triangles_valid(&vec![(0, 1, 2), (2, 1, 0)], 3));
    assert!(!all_triangles_valid(&vec![(0, 1, 2), (2, 3, 0)], 3));
    assert!(!all_triangles_valid(&vec![(3, 1, 2)], 3));
    assert!(!all_triangles_valid(&vec![(0, 1, 3)], 3));
    assert!(all_triangles_valid(&Vec::new(), 0));
}
