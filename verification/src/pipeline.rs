//! The two passes over a whole mesh: taking its outer surface, and
//! repairing a surface.

use vstd::prelude::*;
use crate::inside::find_inside_points;
use crate::inside::hit_both_ways;
use crate::inside::inside_both;
use crate::inside::lemma_enclosed_along_x;
use crate::inside::lemma_enclosed_along_y;
use crate::intersection::component;
use crate::intersection::hits_triangle;
use crate::intersection::lemma_ray_leaving_extent_misses;
use crate::intersection::ray_hits_any;
use crate::orient::oriented;
use crate::orient::whole_visit;
use crate::orient::orient_triangles;
use crate::prune::double_boundary_vertices;
use crate::prune::hourglass_vertices;
use crate::prune::remove_double_boundary_indices;
use crate::prune::remove_hourglass_indices;
use crate::shell::clear_of;
use crate::shell::extract_outer;
use crate::shell::is_compaction;
use crate::shell::is_used;
use crate::shell::lemma_filter_keeps_all;
use crate::shell::remove_unused_points;
use crate::shell::touches;
use crate::triangle::Triplet;
use crate::tiles::distribute_points_to_tiles;
use crate::tiles::distribute_triangles_to_tiles;
use crate::tiles::get_step_sizes;
use crate::triangle::lemma_filter_keeps_valid;
use crate::triangle::triangles_valid;
use crate::topology::reversed;
use crate::vector::SCALE;
use crate::vector::Vector3;
use crate::vector::points_in_range;

verus! {

/// The number of grid cells along each axis.
pub const NUM_STEPS: usize = 100;

/// The direction of the x axis, or the one against it.
pub open spec fn along_x(forward: bool) -> Vector3 {
    Vector3 { x: if forward { SCALE } else { (-SCALE) as i128 }, y: 0, z: 0 }
}

/// The direction of the y axis, or the one against it.
pub open spec fn along_y(forward: bool) -> Vector3 {
    Vector3 { x: 0, y: if forward { SCALE } else { (-SCALE) as i128 }, z: 0 }
}

/// Whether the point is inside the mesh: rays from it along x, both ways,
/// and along y, both ways, all meet some triangle.
pub open spec fn is_inside(points: Seq<Vector3>, triangles: Seq<Triplet>, p: usize) -> bool {
    &&& p < points.len()
    &&& hit_both_ways(points, triangles, along_x(true), along_x(false), p)
    &&& hit_both_ways(points, triangles, along_y(true), along_y(false), p)
}

/// The points that are inside the mesh.
pub open spec fn inside_set(points: Seq<Vector3>, triangles: Seq<Triplet>) -> Set<usize> {
    Set::new(|p: usize| is_inside(points, triangles, p))
}

/// The triangles of which no corner is inside the mesh.
pub open spec fn outer_triangles(points: Seq<Vector3>, triangles: Seq<Triplet>) -> Seq<Triplet> {
    triangles.filter(clear_of(inside_set(points, triangles)))
}

/// The outer surface of a mesh: its triangles of which no corner is inside
/// it, with the points that these use. The grid that the search goes by
/// has no part in the result.
pub fn outer_surface(coordinates: &[Vector3], triangles: &Vec<Triplet>) -> (r: (
    Vec<Vector3>,
    Vec<Triplet>,
))
    requires
        points_in_range(coordinates@),
        triangles_valid(triangles@, coordinates@.len() as int),
    ensures
        is_compaction(
            coordinates@,
            outer_triangles(coordinates@, triangles@),
            r.0@,
            r.1@,
        ),
        r.0@.len() <= coordinates@.len(),
        triangles_valid(r.1@, r.0@.len() as int),
        forall|q: usize| q < r.0@.len() ==> is_used(r.1@, q),
        triangles@.no_duplicates() ==> r.1@.no_duplicates(),
        points_in_range(r.0@),
{
    let step = get_step_sizes(NUM_STEPS, coordinates);

    let (tiles_to_points_along_x, tiles_to_points_along_y) = distribute_points_to_tiles(
        coordinates,
        step,
    );
    let (tiles_to_triangles_along_x, tiles_to_triangles_along_y) = distribute_triangles_to_tiles(
        coordinates,
        triangles,
        step,
    );

    let right = Vector3 { x: SCALE, y: 0, z: 0 };
    let left = Vector3 { x: -SCALE, y: 0, z: 0 };
    let up = Vector3 { x: 0, y: SCALE, z: 0 };
    let down = Vector3 { x: 0, y: -SCALE, z: 0 };
    assert(right == along_x(true) && left == along_x(false));
    assert(up == along_y(true) && down == along_y(false));

    let inside_points_along_x = find_inside_points(
        coordinates,
        &tiles_to_points_along_x,
        &tiles_to_triangles_along_x,
        &right,
        &left,
    );
    let inside_points_along_y = find_inside_points(
        coordinates,
        &tiles_to_points_along_y,
        &tiles_to_triangles_along_y,
        &up,
        &down,
    );
    let inside_points = inside_both(
        &inside_points_along_x,
        &inside_points_along_y,
        coordinates.len(),
    );
    proof {
        assert forall|p: usize|
            inside_points@.contains(p) <==> is_inside(coordinates@, triangles@, p) by {
            if p < coordinates@.len() {
                lemma_enclosed_along_x(
                    coordinates@,
                    triangles@,
                    step,
                    tiles_to_points_along_x,
                    tiles_to_triangles_along_x,
                    right,
                    left,
                    p,
                );
                lemma_enclosed_along_y(
                    coordinates@,
                    triangles@,
                    step,
                    tiles_to_points_along_y,
                    tiles_to_triangles_along_y,
                    up,
                    down,
                    p,
                );
            }
        }
        assert(inside_points@ =~= inside_set(coordinates@, triangles@));
    }

    let outside_triangles = extract_outer(triangles, &inside_points);
    proof {
        lemma_filter_keeps_valid(
            triangles@,
            clear_of(inside_points@),
            coordinates@.len() as int,
        );
    }
    remove_unused_points(coordinates, &outside_triangles)
}

/// A ray that meets a triangle of what a filter keeps meets a triangle of
/// the whole list.
proof fn lemma_hit_in_part(
    points: Seq<Vector3>,
    triangles: Seq<Triplet>,
    keep: spec_fn(Triplet) -> bool,
    origin: Vector3,
    direction: Vector3,
)
    requires
        ray_hits_any(origin, direction, points, triangles.filter(keep)),
    ensures
        ray_hits_any(origin, direction, points, triangles),
{
    let kept = triangles.filter(keep);
    let k = choose|k: int|
        0 <= k < kept.len() && hits_triangle(origin, direction, points, #[trigger] kept[k]);
    assert(kept.contains(kept[k]));
    triangles.lemma_filter_contains_rev(keep, kept[k]);
    let j = choose|j: int| 0 <= j < triangles.len() && triangles[j] == kept[k];
    assert(hits_triangle(origin, direction, points, triangles[j]));
}

/// Taking the outer triangles once more changes nothing: a point that is
/// inside what is left was inside before, and no corner of what is left
/// was.
pub proof fn lemma_extraction_is_idempotent(points: Seq<Vector3>, triangles: Seq<Triplet>)
    ensures
        outer_triangles(points, outer_triangles(points, triangles)) == outer_triangles(
            points,
            triangles,
        ),
{
    let before = inside_set(points, triangles);
    let outer = outer_triangles(points, triangles);
    let after = inside_set(points, outer);
    assert forall|p: usize| after.contains(p) implies before.contains(p) by {
        let origin = points[p as int];
        lemma_hit_in_part(points, triangles, clear_of(before), origin, along_x(true));
        lemma_hit_in_part(points, triangles, clear_of(before), origin, along_x(false));
        lemma_hit_in_part(points, triangles, clear_of(before), origin, along_y(true));
        lemma_hit_in_part(points, triangles, clear_of(before), origin, along_y(false));
    }
    assert forall|i: int| 0 <= i < outer.len() implies clear_of(after)(#[trigger] outer[i]) by {
        triangles.lemma_filter_pred(clear_of(before), i);
    }
    lemma_filter_keeps_all(outer, clear_of(after));
}

/// Whether no corner of any triangle lies beyond the point `p` along the
/// axis, on the high side or on the low side.
pub open spec fn is_extreme(
    points: Seq<Vector3>,
    triangles: Seq<Triplet>,
    p: usize,
    axis: int,
    high: bool,
) -> bool {
    forall|k: int, corner: usize|
        0 <= k < triangles.len() && #[trigger] touches(triangles[k], corner) ==> if high {
            component(points[corner as int]@, axis) <= component(points[p as int]@, axis)
        } else {
            component(points[corner as int]@, axis) >= component(points[p as int]@, axis)
        }
}

/// A point that no triangle reaches beyond, along x or along y, is not
/// inside: the ray that leaves the mesh there meets nothing. So the
/// corners of a box are outside of it.
pub proof fn lemma_extreme_point_is_outside(
    points: Seq<Vector3>,
    triangles: Seq<Triplet>,
    p: usize,
    axis: int,
    high: bool,
)
    requires
        axis == 0 || axis == 1,
        is_extreme(points, triangles, p, axis, high),
    ensures
        !is_inside(points, triangles, p),
{
    let origin = points[p as int];
    let direction = if axis == 0 {
        along_x(high)
    } else {
        along_y(high)
    };
    if ray_hits_any(origin, direction, points, triangles) {
        let k = choose|k: int|
            0 <= k < triangles.len() && hits_triangle(
                origin,
                direction,
                points,
                #[trigger] triangles[k],
            );
        let t = triangles[k];
        assert(touches(triangles[k], t.0) && touches(triangles[k], t.1) && touches(
            triangles[k],
            t.2,
        ));
        lemma_ray_leaving_extent_misses(
            origin@,
            direction@,
            points[t.0 as int]@,
            points[t.1 as int]@,
            points[t.2 as int]@,
            axis,
        );
    }
}

/// The triangles without those at a vertex where more than two boundary
/// edge ends meet, and of what is left, without those at a vertex whose
/// opposite edges form more than one component.
pub open spec fn pruned(triangles: Seq<Triplet>) -> Seq<Triplet> {
    let first = triangles.filter(clear_of(double_boundary_vertices(triangles)));
    first.filter(clear_of(hourglass_vertices(first)))
}

/// What the repair makes of the triangles: the visit of all triangles,
/// oriented and pruned.
pub open spec fn repaired_triangles(
    triangles: Seq<Triplet>,
    drop_bad_triangles: bool,
) -> Seq<Triplet> {
    pruned(oriented(whole_visit(triangles), drop_bad_triangles))
}

/// Repairs a surface: gives its triangles a consistent winding, drops the
/// triangles at vertices where the boundary meets itself or where two fans
/// meet, and keeps the points that are still used.
pub fn repair_surface(
    coordinates: &[Vector3],
    triangles: &Vec<Triplet>,
    drop_bad_triangles: bool,
) -> (r: (Vec<Vector3>, Vec<Triplet>))
    requires
        triangles_valid(triangles@, coordinates@.len() as int),
    ensures
        is_compaction(
            coordinates@,
            repaired_triangles(triangles@, drop_bad_triangles),
            r.0@,
            r.1@,
        ),
        r.0@.len() <= coordinates@.len(),
        triangles_valid(r.1@, r.0@.len() as int),
        forall|q: usize| q < r.0@.len() ==> is_used(r.1@, q),
        r.1@.no_duplicates(),
        points_in_range(coordinates@) ==> points_in_range(r.0@),
{
    let oriented = orient_triangles(triangles, drop_bad_triangles);
    let without_double_boundary = remove_double_boundary_indices(&oriented);
    let repaired = remove_hourglass_indices(&without_double_boundary);
    proof {
        let n = coordinates@.len() as int;
        assert forall|k: int| 0 <= k < oriented@.len() implies {
            let t = #[trigger] oriented@[k];
            t.0 < n && t.1 < n && t.2 < n
        } by {
            let t = oriented@[k];
            assert(oriented@.contains(t));
            if triangles@.contains(t) {
                let w = choose|w: int| 0 <= w < triangles@.len() && triangles@[w] == t;
                let _ = triangles@[w];
            } else {
                let w = choose|w: int| 0 <= w < triangles@.len() && triangles@[w] == reversed(t);
                let _ = triangles@[w];
            }
        }
        lemma_filter_keeps_valid(oriented@, clear_of(double_boundary_vertices(oriented@)), n);
        lemma_filter_keeps_valid(
            without_double_boundary@,
            clear_of(hourglass_vertices(without_double_boundary@)),
            n,
        );
        assert(repaired@ == pruned(oriented@));
    }
    remove_unused_points(coordinates, &repaired)
}

} // verus!
