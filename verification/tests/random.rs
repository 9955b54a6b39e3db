use std::collections::HashMap;
use std::collections::HashSet;

use outside_surface::components::number_of_components;
use outside_surface::decimal::parse_coordinate;
use outside_surface::decimal::write_coordinate;
use outside_surface::mesh_text::format_mesh;
use outside_surface::mesh_text::parse_mesh;
use outside_surface::orient::orient_triangles;
use outside_surface::prune::remove_double_boundary_indices;
use outside_surface::prune::remove_hourglass_indices;
use outside_surface::shell::remove_unused_points;
use outside_surface::tiles::tile_index;
use outside_surface::tiles::TileMap;
use outside_surface::topology::distinct_triangles;
use outside_surface::topology::triangle_neighbors;
use outside_surface::vector::Vector3;
use outside_surface::vector::COORDINATE_LIMIT;

type Triplet = (usize, usize, usize);

/// A small generator of numbers that look random, the same on every run.
struct Numbers {
    state: u64,
}

impl Numbers {
    fn new(seed: u64) -> Numbers {
        Numbers { state: seed }
    }

    fn next(&mut self) -> u64 {
        self.state = self.state.wrapping_mul(6364136223846793005).wrapping_add(1442695040888963407);
        self.state >> 33
    }

    fn below(&mut self, n: usize) -> usize {
        (self.next() % n as u64) as usize
    }
}

fn random_triangles(numbers: &mut Numbers, count: usize, points: usize) -> Vec<Triplet> {
    let mut listed = Vec::new();
    for _ in 0..count {
        listed.push((numbers.below(points), numbers.below(points), numbers.below(points)));
    }
    distinct_triangles(&listed)
}

fn sides(t: Triplet) -> [(usize, usize); 3] {
    let order = |a: usize, b: usize| if a < b { (a, b) } else { (b, a) };
    [order(t.0, t.1), order(t.1, t.2), order(t.2, t.0)]
}

fn components_by_merging(edges: &[(usize, usize)]) -> usize {
    let mut group: HashMap<usize, usize> = HashMap::new();
    for &(a, b) in edges {
        group.entry(a).or_insert(a);
        group.entry(b).or_insert(b);
    }
    let mut changed = true;
    while changed {
        changed = false;
        for &(a, b) in edges {
            let (ga, gb) = (group[&a], group[&b]);
            if ga != gb {
                let low = ga.min(gb);
                group.insert(a, low);
                group.insert(b, low);
                changed = true;
            }
        }
    }
    let groups: HashSet<usize> = group.values().copied().collect();
    groups.len()
}

#[test]
fn distinct_triangles_agree_with_a_set() {
    let mut numbers = Numbers::new(1);
    for _ in 0..50 {
        let mut listed = Vec::new();
        for _ in 0..60 {
            listed.push((numbers.below(4), numbers.below(4), numbers.below(4)));
        }
        let distinct = distinct_triangles(&listed);
        let mut seen = HashSet::new();
        let expected: Vec<Triplet> = listed.iter().copied().filter(|t| seen.insert(*t)).collect();
        assert_eq!(distinct, expected);
    }
}

#[test]
fn neighbors_agree_with_counting_by_hand() {
    let mut numbers = Numbers::new(2);
    for _ in 0..50 {
        let triangles = random_triangles(&mut numbers, 30, 8);
        let neighbors = triangle_neighbors(&triangles);
        assert_eq!(neighbors.len(), triangles.len());
        for (i, t) in triangles.iter().enumerate() {
            let mut expected = Vec::new();
            for side in sides(*t) {
                let mut users = Vec::new();
                for (j, u) in triangles.iter().enumerate() {
                    for other in sides(*u) {
                        if other == side {
                            users.push(j);
                        }
                    }
                }
                expected.extend(users.into_iter().filter(|&j| j != i));
            }
            assert_eq!(neighbors[i], expected);
        }
    }
}

#[test]
fn components_agree_with_merging() {
    let mut numbers = Numbers::new(3);
    for _ in 0..200 {
        let count = numbers.below(12);
        let mut edges = Vec::new();
        for _ in 0..count {
            edges.push((numbers.below(15), numbers.below(15)));
        }
        assert_eq!(number_of_components(&edges), components_by_merging(&edges));
    }
}

#[test]
fn pruning_agrees_with_counting_by_hand() {
    let mut numbers = Numbers::new(4);
    for _ in 0..50 {
        let triangles = random_triangles(&mut numbers, 12, 9);
        // double boundary
        let mut uses: HashMap<(usize, usize), usize> = HashMap::new();
        for t in &triangles {
            for side in sides(*t) {
                *uses.entry(side).or_insert(0) += 1;
            }
        }
        let mut ends: HashMap<usize, usize> = HashMap::new();
        for (side, count) in &uses {
            if *count == 1 {
                *ends.entry(side.0).or_insert(0) += 1;
                *ends.entry(side.1).or_insert(0) += 1;
            }
        }
        let bad = |v: usize| ends.get(&v).copied().unwrap_or(0) > 2;
        let expected: Vec<Triplet> =
            triangles.iter().copied().filter(|t| !bad(t.0) && !bad(t.1) && !bad(t.2)).collect();
        assert_eq!(remove_double_boundary_indices(&triangles), expected);
        // hourglass
        let mut opposite: HashMap<usize, Vec<(usize, usize)>> = HashMap::new();
        for t in &triangles {
            let s = sides(*t);
            opposite.entry(t.0).or_default().push(s[1]);
            opposite.entry(t.1).or_default().push(s[2]);
            opposite.entry(t.2).or_default().push(s[0]);
        }
        let pinched = |v: usize| components_by_merging(&opposite[&v]) > 1;
        let expected: Vec<Triplet> = triangles
            .iter()
            .copied()
            .filter(|t| !pinched(t.0) && !pinched(t.1) && !pinched(t.2))
            .collect();
        assert_eq!(remove_hourglass_indices(&triangles), expected);
    }
}

#[test]
fn dropping_always_leaves_a_consistent_winding() {
    let mut numbers = Numbers::new(5);
    for _ in 0..100 {
        let triangles = random_triangles(&mut numbers, 20, 7);
        let oriented = orient_triangles(&triangles, true);
        let mut seen: HashSet<(usize, usize)> = HashSet::new();
        for t in &oriented {
            assert!(triangles.contains(t));
            let own: HashSet<(usize, usize)> =
                [(t.0, t.1), (t.1, t.2), (t.2, t.0)].into_iter().collect();
            assert!(own.is_disjoint(&seen));
            seen.extend(own);
        }
        let reversed = orient_triangles(&triangles, false);
        let distinct: HashSet<Triplet> = reversed.iter().copied().collect();
        assert_eq!(distinct.len(), reversed.len());
        for t in &triangles {
            assert!(reversed.contains(t) || reversed.contains(&(t.2, t.1, t.0)));
        }
        for t in &reversed {
            assert!(triangles.contains(t) || triangles.contains(&(t.2, t.1, t.0)));
        }
        if !triangles.is_empty() {
            assert_eq!(oriented[0], triangles[0]);
            assert_eq!(reversed[0], triangles[0]);
        }
    }
}

#[test]
fn compaction_keeps_the_corners_in_space() {
    let mut numbers = Numbers::new(6);
    for _ in 0..50 {
        let count = 5 + numbers.below(30);
        let points: Vec<Vector3> = (0..count)
            .map(|i| Vector3 { x: i as i128, y: numbers.below(100) as i128, z: -(i as i128) })
            .collect();
        let triangles = random_triangles(&mut numbers, 10, count);
        let (new_points, new_triangles) = remove_unused_points(&points, &triangles);
        assert_eq!(new_triangles.len(), triangles.len());
        assert!(new_points.len() <= points.len());
        for (old, new) in triangles.iter().zip(new_triangles.iter()) {
            assert_eq!(points[old.0], new_points[new.0]);
            assert_eq!(points[old.1], new_points[new.1]);
            assert_eq!(points[old.2], new_points[new.2]);
        }
        for pair in new_points.windows(2) {
            assert!(pair[0].x < pair[1].x);
        }
        for q in 0..new_points.len() {
            assert!(new_triangles.iter().any(|t| t.0 == q || t.1 == q || t.2 == q));
        }
    }
}

#[test]
fn tile_index_agrees_with_the_floor_of_the_quotient() {
    let mut numbers = Numbers::new(7);
    for _ in 0..2000 {
        let value = numbers.below(2001) as i128 - 1000;
        let origin = numbers.below(201) as i128 - 100;
        let step = numbers.below(41) as i128 - 20;
        if step == 0 {
            continue;
        }
        let expected = ((value - origin) as f64 / step as f64).floor() as isize;
        assert_eq!(tile_index(value, origin, step), expected);
    }
}

#[test]
fn tile_map_agrees_with_a_hash_map() {
    let mut numbers = Numbers::new(8);
    let mut map: TileMap<usize> = TileMap::new();
    let mut expected: HashMap<(isize, isize), Vec<usize>> = HashMap::new();
    for item in 0..2000 {
        let key = (numbers.below(21) as isize - 10, numbers.below(21) as isize - 10);
        map.insert(key, item);
        expected.entry(key).or_default().push(item);
    }
    assert_eq!(map.len(), expected.len());
    for i in -11..=11 {
        for j in -11..=11 {
            assert_eq!(map.get((i, j)), expected.get(&(i, j)));
        }
    }
}

#[test]
fn written_coordinates_are_read_back() {
    let mut numbers = Numbers::new(9);
    for _ in 0..2000 {
        let size = (numbers.next() as i128 * 1_000_003) % (COORDINATE_LIMIT * 1000);
        let units = if numbers.below(2) == 0 { size } else { -size };
        let mut text = Vec::new();
        write_coordinate(units, &mut text);
        assert_eq!(parse_coordinate(&text), Some(units));
        // The same number as a decimal fraction of a float agrees to a unit.
        let as_float: f64 = String::from_utf8(text).unwrap().parse().unwrap();
        assert!((as_float * 1e7 - units as f64).abs() < 1.0);
    }
}

#[test]
fn written_meshes_are_read_back() {
    let mut numbers = Numbers::new(10);
    for _ in 0..30 {
        let count = numbers.below(20);
        let points: Vec<Vector3> = (0..count)
            .map(|_| Vector3 {
                x: numbers.next() as i128 - (1 << 30),
                y: -(numbers.next() as i128),
                z: numbers.below(3) as i128 * 5_000_000,
            })
            .collect();
        let mut triangles = Vec::new();
        for _ in 0..numbers.below(20) {
            triangles.push((numbers.below(50), numbers.below(50), numbers.below(50)));
        }
        let text = format_mesh(&points, &triangles);
        assert_eq!(parse_mesh(&text), Some((points, triangles)));
    }
}
