use std::collections::HashSet;

use outside_surface::buckets::pair_key;
use outside_surface::buckets::Buckets;
use outside_surface::components::dfs;
use outside_surface::components::number_of_components;
use outside_surface::orient::orient_triangles;
use outside_surface::orient::visit_all_triangles;
use outside_surface::orient::visit_every_triangle;
use outside_surface::prune::remove_double_boundary_indices;
use outside_surface::prune::remove_hourglass_indices;
use outside_surface::topology::edge_to_triangles;
use outside_surface::topology::ordered;
use outside_surface::topology::triangle_neighbors;
use outside_surface::walk::breadth_first_order;
use outside_surface::walk::visit_every_position;

type Triplet = (usize, usize, usize);

fn set_of(items: &[usize]) -> HashSet<usize> {
    items.iter().copied().collect()
}

fn half_edges(t: Triplet) -> [(usize, usize); 3] {
    [(t.0, t.1), (t.1, t.2), (t.2, t.0)]
}

/// Counts the pairs of triangles that traverse a common side in the same
/// direction.
fn clashes(triangles: &[Triplet]) -> usize {
    let mut count = 0;
    for i in 0..triangles.len() {
        for j in (i + 1)..triangles.len() {
            let shared = half_edges(triangles[i])
                .iter()
                .any(|h| half_edges(triangles[j]).contains(h));
            if shared {
                count += 1;
            }
        }
    }
    count
}

fn cube_triangles() -> Vec<Triplet> {
    vec![
        (0, 1, 3),
        (0, 3, 2),
        (4, 7, 5),
        (4, 6, 7),
        (0, 5, 1),
        (0, 4, 5),
        (2, 3, 7),
        (2, 7, 6),
        (0, 2, 6),
        (0, 6, 4),
        (1, 7, 3),
        (1, 5, 7),
    ]
}

/// A band of five triangles with a half twist: it has one side only.
fn twisted_band() -> Vec<Triplet> {
    vec![(0, 1, 2), (1, 2, 3), (2, 3, 4), (3, 4, 0), (4, 0, 1)]
}

#[test]
fn ordered_puts_the_smaller_first() {
    assert_eq!(ordered(3, 1), (1, 3));
    assert_eq!(ordered(1, 3), (1, 3));
    assert_eq!(ordered(2, 2), (2, 2));
    assert_eq!(ordered(0, usize::MAX), (0, usize::MAX));
}

#[test]
fn pair_keys_differ_for_different_pairs() {
    assert_eq!(pair_key(0, 0), 0);
    assert_eq!(pair_key(0, 5), 5);
    assert_eq!(pair_key(1, 0), 1u128 << 64);
    assert_ne!(pair_key(1, 2), pair_key(2, 1));
    assert_eq!(pair_key(usize::MAX, usize::MAX), ((usize::MAX as u128) << 64) + usize::MAX as u128);
}

#[test]
fn buckets_keep_values_by_key() {
    let mut buckets: Buckets<usize> = Buckets::new();
    assert!(buckets.get(3).is_none());
    buckets.add(3, 10);
    buckets.add(4, 11);
    buckets.add(3, 12);
    assert_eq!(buckets.get(3), Some(&vec![10, 12]));
    assert_eq!(buckets.get(4), Some(&vec![11]));
    assert!(buckets.get(5).is_none());
}

#[test]
fn edges_know_their_triangles() {
    let triangles = vec![(0, 1, 2), (2, 1, 3), (3, 1, 4), (1, 2, 9)];
    let table = edge_to_triangles(&triangles);
    assert_eq!(table.get(pair_key(1, 2)), Some(&vec![0, 1, 3]));
    assert_eq!(table.get(pair_key(1, 3)), Some(&vec![1, 2]));
    assert_eq!(table.get(pair_key(0, 1)), Some(&vec![0]));
    assert!(table.get(pair_key(2, 1)).is_none());
    assert!(table.get(pair_key(0, 4)).is_none());
}

#[test]
fn neighbors_share_a_side() {
    let triangles = vec![(0, 1, 2), (2, 1, 3), (3, 1, 4)];
    let neighbors = triangle_neighbors(&triangles);
    assert_eq!(neighbors, vec![vec![1], vec![0, 2], vec![1]]);
}

#[test]
fn three_triangles_at_a_side_are_all_neighbors() {
    let triangles = vec![(0, 1, 2), (2, 1, 3), (1, 2, 4)];
    let neighbors = triangle_neighbors(&triangles);
    assert_eq!(neighbors, vec![vec![1, 2], vec![0, 2], vec![0, 1]]);
    let triangles = vec![(0, 1, 2), (0, 1, 3), (0, 1, 4)];
    assert_eq!(triangle_neighbors(&triangles), vec![vec![1, 2], vec![0, 2], vec![0, 1]]);
    assert_eq!(visit_all_triangles(&triangles, (0, 1, 2)), triangles);
}

#[test]
fn neighbors_come_in_the_order_of_the_sides() {
    let triangles = vec![(0, 1, 2), (0, 2, 5), (2, 1, 4), (1, 0, 3)];
    let neighbors = triangle_neighbors(&triangles);
    assert_eq!(neighbors[0], vec![3, 2, 1]);
    assert_eq!(neighbors[1], vec![0]);
    assert_eq!(neighbors[2], vec![0]);
    assert_eq!(neighbors[3], vec![0]);
}

#[test]
fn neighbors_of_a_cube() {
    let neighbors = triangle_neighbors(&cube_triangles());
    assert_eq!(neighbors.len(), 12);
    for list in &neighbors {
        assert_eq!(list.len(), 3);
    }
    assert_eq!(neighbors[0], vec![4, 10, 1]);
}

#[test]
fn breadth_first_visits_level_by_level() {
    let lists = vec![vec![1, 2, 3], vec![0, 4], vec![0], vec![0, 5], vec![1], vec![3], vec![6]];
    assert_eq!(breadth_first_order(&lists, 0), vec![0, 1, 2, 3, 4, 5]);
    assert_eq!(breadth_first_order(&lists, 4), vec![4, 1, 0, 2, 3, 5]);
    assert_eq!(breadth_first_order(&lists, 6), vec![6]);
}

#[test]
fn visit_goes_through_a_strip() {
    let triangles = vec![(0, 1, 2), (2, 1, 3), (3, 1, 4)];
    assert_eq!(visit_all_triangles(&triangles, (3, 1, 4)), vec![(3, 1, 4), (2, 1, 3), (0, 1, 2)]);
    assert_eq!(visit_all_triangles(&triangles, (2, 1, 3)), vec![(2, 1, 3), (0, 1, 2), (3, 1, 4)]);
}

#[test]
fn visit_takes_all_neighbors_before_going_on() {
    let center = (0, 1, 2);
    let first = (1, 0, 3);
    let second = (2, 1, 4);
    let third = (0, 2, 5);
    let beyond_first = (3, 0, 6);
    let triangles = vec![beyond_first, third, first, center, second];
    assert_eq!(visit_all_triangles(&triangles, center), vec![center, first, second, third, beyond_first]);
}

#[test]
fn visit_stays_in_the_component_of_the_start() {
    let triangles = vec![(0, 1, 2), (2, 1, 3), (10, 11, 12)];
    assert_eq!(visit_all_triangles(&triangles, (0, 1, 2)), vec![(0, 1, 2), (2, 1, 3)]);
    assert_eq!(visit_all_triangles(&triangles, (10, 11, 12)), vec![(10, 11, 12)]);
}

#[test]
fn visit_of_an_unknown_start_is_the_start_alone() {
    let triangles = vec![(0, 1, 2), (2, 1, 3)];
    assert_eq!(visit_all_triangles(&triangles, (7, 8, 9)), vec![(7, 8, 9)]);
    assert_eq!(visit_all_triangles(&Vec::new(), (7, 8, 9)), vec![(7, 8, 9)]);
}

#[test]
fn orientation_keeps_a_consistent_pair() {
    let triangles = vec![(0, 1, 2), (2, 1, 3)];
    assert_eq!(orient_triangles(&triangles, false), triangles);
    assert_eq!(orient_triangles(&triangles, true), triangles);
}

#[test]
fn orientation_reverses_or_drops_a_conflicting_triangle() {
    let triangles = vec![(0, 1, 2), (1, 2, 3)];
    assert_eq!(orient_triangles(&triangles, false), vec![(0, 1, 2), (3, 2, 1)]);
    assert_eq!(orient_triangles(&triangles, true), vec![(0, 1, 2)]);
}

#[test]
fn orientation_of_nothing() {
    assert_eq!(orient_triangles(&Vec::new(), false), Vec::new());
    assert_eq!(orient_triangles(&Vec::new(), true), Vec::new());
}

#[test]
fn orientation_goes_on_where_a_walk_ends() {
    let triangles = vec![(0, 1, 2), (5, 6, 7), (2, 1, 3)];
    assert_eq!(orient_triangles(&triangles, false), vec![(0, 1, 2), (2, 1, 3), (5, 6, 7)]);
    assert_eq!(orient_triangles(&triangles, true), vec![(0, 1, 2), (2, 1, 3), (5, 6, 7)]);
    let apart = vec![(0, 1, 2), (5, 6, 7)];
    assert_eq!(orient_triangles(&apart, false), apart);
    assert_eq!(visit_every_triangle(&triangles), vec![(0, 1, 2), (2, 1, 3), (5, 6, 7)]);
    assert_eq!(visit_every_position(&triangle_neighbors(&triangles)), vec![0, 2, 1]);
    assert_eq!(visit_every_triangle(&Vec::new()), Vec::new());
}

#[test]
fn reversing_keeps_every_triangle() {
    for triangles in [twisted_band(), cube_triangles(), vec![(0, 1, 2), (1, 2, 3), (9, 8, 7)]] {
        let oriented = orient_triangles(&triangles, false);
        for t in &triangles {
            assert!(oriented.contains(t) || oriented.contains(&(t.2, t.1, t.0)));
        }
    }
}

#[test]
fn orientation_repairs_a_scrambled_cube() {
    let mut triangles = cube_triangles();
    for k in [1, 2, 5, 8, 11] {
        let t = triangles[k];
        triangles[k] = (t.2, t.1, t.0);
    }
    assert!(clashes(&triangles) > 0);
    let oriented = orient_triangles(&triangles, false);
    assert_eq!(oriented.len(), 12);
    assert_eq!(clashes(&oriented), 0);
    let expected: HashSet<Triplet> = cube_triangles().into_iter().collect();
    let got: HashSet<Triplet> = oriented.into_iter().collect();
    assert_eq!(got, expected);
}

#[test]
fn orientation_of_a_consistent_cube_changes_nothing() {
    let triangles = cube_triangles();
    let oriented = orient_triangles(&triangles, false);
    let expected: HashSet<Triplet> = triangles.iter().copied().collect();
    let got: HashSet<Triplet> = oriented.iter().copied().collect();
    assert_eq!(oriented.len(), 12);
    assert_eq!(got, expected);
    assert_eq!(oriented[0], triangles[0]);
}

#[test]
fn dropping_leaves_no_clash_on_a_twisted_band() {
    let oriented = orient_triangles(&twisted_band(), true);
    assert_eq!(oriented, vec![(0, 1, 2), (3, 4, 0)]);
    assert_eq!(clashes(&oriented), 0);
}

#[test]
fn reversing_cannot_settle_a_twisted_band() {
    let oriented = orient_triangles(&twisted_band(), false);
    assert_eq!(oriented, vec![(0, 1, 2), (1, 0, 4), (3, 2, 1), (3, 4, 0), (4, 3, 2)]);
    assert_eq!(clashes(&oriented), 1);
}

#[test]
fn both_windings_of_one_triangle_are_kept() {
    // Three triangles meet at the side between 0 and 1.
    let triangles = vec![(2, 1, 0), (0, 1, 3), (0, 1, 2)];
    let neighbors = triangle_neighbors(&triangles);
    assert_eq!(neighbors, vec![vec![2, 1, 2, 2], vec![0, 2], vec![0, 1, 0, 0]]);
    assert_eq!(
        visit_all_triangles(&triangles, (2, 1, 0)),
        vec![(2, 1, 0), (0, 1, 2), (0, 1, 3)]
    );
    assert_eq!(orient_triangles(&triangles, false), vec![(2, 1, 0), (0, 1, 2), (3, 1, 0)]);
    assert_eq!(orient_triangles(&triangles, true), vec![(2, 1, 0), (0, 1, 2)]);
}

#[test]
fn a_repeated_triangle_is_reversed_or_dropped() {
    let triangles = vec![(0, 1, 2), (0, 1, 2)];
    assert_eq!(orient_triangles(&triangles, false), vec![(0, 1, 2), (2, 1, 0)]);
    assert_eq!(orient_triangles(&triangles, true), vec![(0, 1, 2)]);
}

#[test]
fn single_triangle_has_no_double_boundary() {
    let triangles = vec![(0, 1, 2)];
    assert_eq!(remove_double_boundary_indices(&triangles), triangles);
}

#[test]
fn two_triangles_at_a_side_have_no_double_boundary() {
    let triangles = vec![(0, 1, 2), (2, 1, 3)];
    assert_eq!(remove_double_boundary_indices(&triangles), triangles);
}

#[test]
fn triangles_at_a_double_boundary_vertex_are_dropped() {
    let triangles = vec![(0, 1, 2), (5, 6, 7), (0, 3, 4)];
    assert_eq!(remove_double_boundary_indices(&triangles), vec![(5, 6, 7)]);
}

#[test]
fn closed_surface_has_no_boundary() {
    let triangles = cube_triangles();
    assert_eq!(remove_double_boundary_indices(&triangles), triangles);
    assert_eq!(remove_hourglass_indices(&triangles), triangles);
}

#[test]
fn pruning_only_removes() {
    let triangles = vec![(0, 1, 2), (0, 3, 4), (2, 1, 5), (5, 1, 6), (7, 8, 9), (9, 8, 10), (0, 11, 12)];
    let input: HashSet<Triplet> = triangles.iter().copied().collect();
    for t in remove_double_boundary_indices(&triangles) {
        assert!(input.contains(&t));
    }
    for t in remove_hourglass_indices(&triangles) {
        assert!(input.contains(&t));
    }
    assert_eq!(remove_double_boundary_indices(&triangles), vec![(2, 1, 5), (5, 1, 6), (7, 8, 9), (9, 8, 10)]);
    assert_eq!(remove_hourglass_indices(&triangles), vec![(2, 1, 5), (5, 1, 6), (7, 8, 9), (9, 8, 10)]);
    assert_eq!(remove_double_boundary_indices(&Vec::new()), Vec::new());
    assert_eq!(remove_hourglass_indices(&Vec::new()), Vec::new());
}

#[test]
fn depth_first_marks_one_component() {
    let edges = vec![(0, 1), (1, 2), (3, 4), (2, 5)];
    let mut visited: HashSet<usize> = HashSet::new();
    dfs(0, &edges, &mut visited);
    assert_eq!(visited, set_of(&[0, 1, 2, 5]));
    dfs(4, &edges, &mut visited);
    assert_eq!(visited, set_of(&[0, 1, 2, 3, 4, 5]));
    dfs(1, &edges, &mut visited);
    assert_eq!(visited, set_of(&[0, 1, 2, 3, 4, 5]));
}

#[test]
fn depth_first_goes_through_unmarked_vertices_only() {
    let edges = vec![(0, 1), (1, 2), (2, 3), (3, 4), (0, 5)];
    let mut visited = set_of(&[2]);
    dfs(0, &edges, &mut visited);
    assert_eq!(visited, set_of(&[0, 1, 2, 5]));
    let mut visited = set_of(&[2]);
    dfs(2, &edges, &mut visited);
    assert_eq!(visited, set_of(&[2]));
    let mut visited = set_of(&[1, 3]);
    dfs(4, &edges, &mut visited);
    assert_eq!(visited, set_of(&[1, 3, 4]));
}

#[test]
fn depth_first_from_a_vertex_without_edges() {
    let edges = vec![(0, 1)];
    let mut visited: HashSet<usize> = HashSet::new();
    dfs(9, &edges, &mut visited);
    assert_eq!(visited, set_of(&[9]));
}

#[test]
fn components_are_counted() {
    assert_eq!(number_of_components(&Vec::new()), 0);
    assert_eq!(number_of_components(&vec![(0, 1)]), 1);
    assert_eq!(number_of_components(&vec![(0, 1), (1, 2)]), 1);
    assert_eq!(number_of_components(&vec![(0, 1), (2, 3)]), 2);
    assert_eq!(number_of_components(&vec![(0, 1), (2, 3), (1, 2)]), 1);
    assert_eq!(number_of_components(&vec![(0, 1), (2, 3), (4, 5), (5, 0)]), 2);
    assert_eq!(number_of_components(&vec![(0, 1), (0, 1), (1, 0)]), 1);
    assert_eq!(number_of_components(&vec![(7, 7), (8, 8), (9, 9)]), 3);
}

#[test]
fn fan_around_a_vertex_is_kept() {
    let triangles = vec![(0, 1, 2), (0, 2, 3), (0, 3, 4)];
    assert_eq!(remove_hourglass_indices(&triangles), triangles);
}

#[test]
fn triangles_at_an_hourglass_vertex_are_dropped() {
    let triangles = vec![(0, 1, 2), (5, 6, 7), (0, 3, 4)];
    assert_eq!(remove_hourglass_indices(&triangles), vec![(5, 6, 7)]);
}

#[test]
fn two_fans_at_one_vertex_are_an_hourglass() {
    let triangles = vec![(0, 1, 2), (0, 2, 3), (0, 4, 5), (0, 5, 6), (1, 2, 7)];
    assert_eq!(remove_hourglass_indices(&triangles), vec![(1, 2, 7)]);
}
