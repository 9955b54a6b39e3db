//! The inside test: a point is enclosed when rays both ways along an axis
//! meet the triangles of its grid cell.

use vstd::prelude::*;
use std::collections::HashSet;
use vstd::std_specs::hash::group_hash_axioms;
use crate::intersection::hits_triangle;
use crate::intersection::lemma_ray_beyond_extent_misses;
use crate::intersection::ray_hits_any;
use crate::intersection::ray_intersects_batch;
use crate::tiles::TileKey;
use crate::tiles::TileMap;
use crate::triangle::Triplet;
use crate::tiles::covers_along_x;
use crate::tiles::covers_along_y;
use crate::tiles::in_tile_along_x;
use crate::tiles::in_tile_along_y;
use crate::tiles::is_tile;
use crate::tiles::lemma_tile_index_monotonic;
use crate::tiles::point_ids;
use crate::tiles::point_tiles_valid;
use crate::tiles::triangle_tiles_valid;
use crate::tiles::tile_along_x;
use crate::tiles::tile_along_y;
use crate::triangle::triangles_valid;
use crate::vector::Vector3;
use crate::vector::max3;
use crate::vector::min3;
use crate::vector::points_in_range;

verus! {

broadcast use group_hash_axioms;

/// Whether rays from the point `p` along both directions meet a triangle of
/// the given list.
pub open spec fn hit_both_ways(
    coordinates: Seq<Vector3>,
    triangles: Seq<Triplet>,
    direction: Vector3,
    direction_opposite: Vector3,
    p: usize,
) -> bool {
    &&& ray_hits_any(coordinates[p as int], direction, coordinates, triangles)
    &&& ray_hits_any(coordinates[p as int], direction_opposite, coordinates, triangles)
}

/// Whether the point `p` is bucketed in the cell `key` and rays from it
/// along both directions meet a triangle of the same cell.
pub open spec fn enclosed_in(
    coordinates: Seq<Vector3>,
    point_tiles: TileMap<usize>,
    triangle_tiles: TileMap<Triplet>,
    direction: Vector3,
    direction_opposite: Vector3,
    key: TileKey,
    p: usize,
) -> bool {
    &&& point_tiles.cell(key).contains(p)
    &&& hit_both_ways(coordinates, triangle_tiles.cell(key), direction, direction_opposite, p)
}

/// Whether the point `p` is enclosed in some cell.
pub open spec fn is_enclosed(
    coordinates: Seq<Vector3>,
    point_tiles: TileMap<usize>,
    triangle_tiles: TileMap<Triplet>,
    direction: Vector3,
    direction_opposite: Vector3,
    p: usize,
) -> bool {
    exists|key: TileKey| #[trigger]
        enclosed_in(
            coordinates,
            point_tiles,
            triangle_tiles,
            direction,
            direction_opposite,
            key,
            p,
        )
}

/// The points that are enclosed: for each cell, each point of the cell from
/// which rays along both directions meet a triangle of that cell.
pub fn find_inside_points(
    coordinates: &[Vector3],
    tiles_to_points: &TileMap<usize>,
    tiles_to_triangles: &TileMap<Triplet>,
    ray_direction: &Vector3,
    ray_direction_opposite: &Vector3,
) -> (r: HashSet<usize>)
    requires
        points_in_range(coordinates@),
        ray_direction.in_range(),
        ray_direction_opposite.in_range(),
        tiles_to_points.wf(),
        tiles_to_triangles.wf(),
        point_tiles_valid(*tiles_to_points, coordinates@.len() as int),
        triangle_tiles_valid(*tiles_to_triangles, coordinates@.len() as int),
    ensures
        forall|p: usize|
            r@.contains(p) <==> is_enclosed(
                coordinates@,
                *tiles_to_points,
                *tiles_to_triangles,
                *ray_direction,
                *ray_direction_opposite,
                p,
            ),
{
    let mut inside_points: HashSet<usize> = HashSet::new();
    let ghost tiles = tiles_to_points.tiles();
    let mut i: usize = 0;
    while i < tiles_to_points.len()
        invariant
            i <= tiles.len(),
            tiles == tiles_to_points.tiles(),
            points_in_range(coordinates@),
            ray_direction.in_range(),
            ray_direction_opposite.in_range(),
            tiles_to_points.wf(),
            tiles_to_triangles.wf(),
            point_tiles_valid(*tiles_to_points, coordinates@.len() as int),
            triangle_tiles_valid(*tiles_to_triangles, coordinates@.len() as int),
            forall|p: usize| #[trigger]
                inside_points@.contains(p) <==> exists|m: int|
                    0 <= m < i && enclosed_in(
                        coordinates@,
                        *tiles_to_points,
                        *tiles_to_triangles,
                        *ray_direction,
                        *ray_direction_opposite,
                        #[trigger] tiles[m],
                        p,
                    ),
        decreases tiles.len() - i,
    {
        let key: TileKey = tiles_to_points.key_at(i);
        let bucket: &Vec<usize> = tiles_to_points.cell_at(i);
        match tiles_to_triangles.get(key) {
            Some(triangles) => {
                let ghost before = inside_points@;
                let mut j: usize = 0;
                while j < bucket.len()
                    invariant
                        j <= bucket.len(),
                        i < tiles.len(),
                        key == tiles[i as int],
                        bucket@ == tiles_to_points.cell(key),
                        triangles@ == tiles_to_triangles.cell(key),
                        points_in_range(coordinates@),
                        ray_direction.in_range(),
                        ray_direction_opposite.in_range(),
                        point_tiles_valid(*tiles_to_points, coordinates@.len() as int),
                        triangle_tiles_valid(*tiles_to_triangles, coordinates@.len() as int),
                        forall|p: usize| #[trigger]
                            inside_points@.contains(p) <==> (before.contains(p) || (bucket@.take(
                                j as int,
                            ).contains(p) && hit_both_ways(
                                coordinates@,
                                triangles@,
                                *ray_direction,
                                *ray_direction_opposite,
                                p,
                            ))),
                    decreases bucket.len() - j,
                {
                    let point_index: usize = bucket[j];
                    assert(tiles_to_points.cell(key)[j as int] < coordinates@.len());
                    assert(triangles_valid(
                        tiles_to_triangles.cell(key),
                        coordinates@.len() as int,
                    ));
                    let origin: Vector3 = coordinates[point_index];
                    let enclosed: bool = ray_intersects_batch(
                        &origin,
                        ray_direction,
                        coordinates,
                        triangles,
                    ) && ray_intersects_batch(
                        &origin,
                        ray_direction_opposite,
                        coordinates,
                        triangles,
                    );
                    let ghost earlier = inside_points@;
                    if enclosed {
                        inside_points.insert(point_index);
                    }
                    proof {
                        crate::seqs::lemma_take_push(bucket@, j as int);
                        let shorter = bucket@.take(j as int);
                        assert forall|p: usize| shorter.push(point_index).contains(p) <==> (
                        shorter.contains(p) || p == point_index) by {
                            if shorter.contains(p) {
                                let w = choose|w: int| 0 <= w < shorter.len() && shorter[w] == p;
                                assert(shorter.push(point_index)[w] == p);
                            }
                            if p == point_index {
                                assert(shorter.push(point_index)[shorter.len() as int] == p);
                            }
                        }
                        assert forall|p: usize| #[trigger]
                            inside_points@.contains(p) <==> (before.contains(p) || (bucket@.take(
                                j + 1,
                            ).contains(p) && hit_both_ways(
                                coordinates@,
                                triangles@,
                                *ray_direction,
                                *ray_direction_opposite,
                                p,
                            ))) by {
                            let _ = earlier.contains(p);
                            let _ = shorter.push(point_index).contains(p);
                        }
                    }
                    j += 1;
                }
                proof {
                    assert(bucket@.take(j as int) =~= bucket@);
                    assert forall|p: usize|
                        inside_points@.contains(p) <==> exists|m: int|
                            0 <= m < i + 1 && enclosed_in(
                                coordinates@,
                                *tiles_to_points,
                                *tiles_to_triangles,
                                *ray_direction,
                                *ray_direction_opposite,
                                #[trigger] tiles[m],
                                p,
                            ) by {
                        let here = enclosed_in(
                            coordinates@,
                            *tiles_to_points,
                            *tiles_to_triangles,
                            *ray_direction,
                            *ray_direction_opposite,
                            tiles[i as int],
                            p,
                        );
                        assert(inside_points@.contains(p) <==> (before.contains(p) || here));
                    }
                }
            },
            None => {
                proof {
                    tiles_to_triangles.lemma_unfilled_cell_is_empty(key);
                    assert forall|p: usize|
                        !enclosed_in(
                            coordinates@,
                            *tiles_to_points,
                            *tiles_to_triangles,
                            *ray_direction,
                            *ray_direction_opposite,
                            tiles[i as int],
                            p,
                        ) by {}
                }
            },
        }
        i += 1;
    }
    proof {
        assert forall|p: usize|
            inside_points@.contains(p) <==> is_enclosed(
                coordinates@,
                *tiles_to_points,
                *tiles_to_triangles,
                *ray_direction,
                *ray_direction_opposite,
                p,
            ) by {
            if is_enclosed(
                coordinates@,
                *tiles_to_points,
                *tiles_to_triangles,
                *ray_direction,
                *ray_direction_opposite,
                p,
            ) {
                let key = choose|key: TileKey| #[trigger]
                    enclosed_in(
                        coordinates@,
                        *tiles_to_points,
                        *tiles_to_triangles,
                        *ray_direction,
                        *ray_direction_opposite,
                        key,
                        p,
                    );
                if !tiles_to_points.has_tile(key) {
                    tiles_to_points.lemma_unfilled_cell_is_empty(key);
                }
                let m = choose|m: int| 0 <= m < tiles.len() && tiles[m] == key;
                assert(enclosed_in(
                    coordinates@,
                    *tiles_to_points,
                    *tiles_to_triangles,
                    *ray_direction,
                    *ray_direction_opposite,
                    tiles[m],
                    p,
                ));
            }
        }
    }
    inside_points
}

/// The points below `point_count` that are in both sets.
pub fn inside_both(along_x: &HashSet<usize>, along_y: &HashSet<usize>, point_count: usize) -> (r:
    HashSet<usize>)
    ensures
        forall|p: usize|
            r@.contains(p) <==> (p < point_count && along_x@.contains(p) && along_y@.contains(p)),
{
    let mut both: HashSet<usize> = HashSet::new();
    let mut p: usize = 0;
    while p < point_count
        invariant
            p <= point_count,
            forall|q: usize|
                both@.contains(q) <==> (q < p && along_x@.contains(q) && along_y@.contains(q)),
        decreases point_count - p,
    {
        if along_x.contains(&p) && along_y.contains(&p) {
            both.insert(p);
        }
        p += 1;
    }
    both
}

/// A ray along x that meets a triangle starts in a cell of the grid over
/// (y, z) that the triangle is bucketed in, if no step is negative.
pub proof fn lemma_hit_along_x_is_in_cell(
    points: Seq<Vector3>,
    step: Vector3,
    t: Triplet,
    origin: Vector3,
    direction: Vector3,
    key: TileKey,
)
    requires
        direction.y == 0 && direction.z == 0,
        step.y >= 0 && step.z >= 0,
        is_tile(key, tile_along_x(origin, step)),
        hits_triangle(origin, direction, points, t),
    ensures
        covers_along_x(points, step, key)(t),
{
    let (a, b, c) = (points[t.0 as int], points[t.1 as int], points[t.2 as int]);
    let (sy, sz) = (step.y as int, step.z as int);
    if origin.y < min3(a.y as int, b.y as int, c.y as int) || origin.y > max3(
        a.y as int,
        b.y as int,
        c.y as int,
    ) {
        lemma_ray_beyond_extent_misses(origin@, direction@, a@, b@, c@, 1);
    }
    if origin.z < min3(a.z as int, b.z as int, c.z as int) || origin.z > max3(
        a.z as int,
        b.z as int,
        c.z as int,
    ) {
        lemma_ray_beyond_extent_misses(origin@, direction@, a@, b@, c@, 2);
    }
    lemma_tile_index_monotonic(min3(a.y as int, b.y as int, c.y as int), origin.y as int, 0, sy);
    lemma_tile_index_monotonic(origin.y as int, max3(a.y as int, b.y as int, c.y as int), 0, sy);
    lemma_tile_index_monotonic(min3(a.z as int, b.z as int, c.z as int), origin.z as int, 0, sz);
    lemma_tile_index_monotonic(origin.z as int, max3(a.z as int, b.z as int, c.z as int), 0, sz);
}

/// A ray along y that meets a triangle starts in a cell of the grid over
/// (x, z) that the triangle is bucketed in, if no step is negative.
pub proof fn lemma_hit_along_y_is_in_cell(
    points: Seq<Vector3>,
    step: Vector3,
    t: Triplet,
    origin: Vector3,
    direction: Vector3,
    key: TileKey,
)
    requires
        direction.x == 0 && direction.z == 0,
        step.x >= 0 && step.z >= 0,
        is_tile(key, tile_along_y(origin, step)),
        hits_triangle(origin, direction, points, t),
    ensures
        covers_along_y(points, step, key)(t),
{
    let (a, b, c) = (points[t.0 as int], points[t.1 as int], points[t.2 as int]);
    let (sx, sz) = (step.x as int, step.z as int);
    if origin.x < min3(a.x as int, b.x as int, c.x as int) || origin.x > max3(
        a.x as int,
        b.x as int,
        c.x as int,
    ) {
        lemma_ray_beyond_extent_misses(origin@, direction@, a@, b@, c@, 0);
    }
    if origin.z < min3(a.z as int, b.z as int, c.z as int) || origin.z > max3(
        a.z as int,
        b.z as int,
        c.z as int,
    ) {
        lemma_ray_beyond_extent_misses(origin@, direction@, a@, b@, c@, 2);
    }
    lemma_tile_index_monotonic(min3(a.x as int, b.x as int, c.x as int), origin.x as int, 0, sx);
    lemma_tile_index_monotonic(origin.x as int, max3(a.x as int, b.x as int, c.x as int), 0, sx);
    lemma_tile_index_monotonic(min3(a.z as int, b.z as int, c.z as int), origin.z as int, 0, sz);
    lemma_tile_index_monotonic(origin.z as int, max3(a.z as int, b.z as int, c.z as int), 0, sz);
}

/// A ray meets a triangle of a filtered list exactly if it meets a triangle
/// of the whole list, where the filter keeps every triangle that the ray
/// meets.
proof fn lemma_filter_loses_no_hit(
    points: Seq<Vector3>,
    triangles: Seq<Triplet>,
    keep: spec_fn(Triplet) -> bool,
    origin: Vector3,
    direction: Vector3,
)
    requires
        forall|t: Triplet| hits_triangle(origin, direction, points, t) ==> #[trigger] keep(t),
    ensures
        ray_hits_any(origin, direction, points, triangles.filter(keep)) == ray_hits_any(
            origin,
            direction,
            points,
            triangles,
        ),
{
    let kept = triangles.filter(keep);
    if ray_hits_any(origin, direction, points, kept) {
        let k = choose|k: int|
            0 <= k < kept.len() && hits_triangle(origin, direction, points, #[trigger] kept[k]);
        assert(kept.contains(kept[k]));
        triangles.lemma_filter_contains_rev(keep, kept[k]);
        let j = choose|j: int| 0 <= j < triangles.len() && triangles[j] == kept[k];
        assert(hits_triangle(origin, direction, points, triangles[j]));
    }
    if ray_hits_any(origin, direction, points, triangles) {
        let k = choose|k: int|
            0 <= k < triangles.len() && hits_triangle(
                origin,
                direction,
                points,
                #[trigger] triangles[k],
            );
        assert(keep(triangles[k]));
        triangles.lemma_filter_contains(keep, k);
        let j = choose|j: int| 0 <= j < kept.len() && kept[j] == triangles[k];
        assert(hits_triangle(origin, direction, points, kept[j]));
    }
}

/// The grid is for speed only. With the maps that bucketing makes for rays
/// along x, and no negative step, a point is enclosed exactly if rays from
/// it along both directions meet some triangle of the whole list.
pub proof fn lemma_enclosed_along_x(
    points: Seq<Vector3>,
    triangles: Seq<Triplet>,
    step: Vector3,
    point_tiles: TileMap<usize>,
    triangle_tiles: TileMap<Triplet>,
    direction: Vector3,
    direction_opposite: Vector3,
    p: usize,
)
    requires
        p < points.len(),
        step.y >= 0 && step.z >= 0,
        direction.y == 0 && direction.z == 0,
        direction_opposite.y == 0 && direction_opposite.z == 0,
        forall|key: TileKey| #[trigger]
            point_tiles.cell(key) == point_ids(points.len()).filter(
                in_tile_along_x(points, step, key),
            ),
        forall|key: TileKey| #[trigger]
            triangle_tiles.cell(key) == triangles.filter(covers_along_x(points, step, key)),
    ensures
        is_enclosed(points, point_tiles, triangle_tiles, direction, direction_opposite, p)
            <==> hit_both_ways(points, triangles, direction, direction_opposite, p),
{
    let origin = points[p as int];
    let cell = tile_along_x(origin, step);
    let home: TileKey = (cell.0 as isize, cell.1 as isize);
    assert(is_tile(home, cell));
    let ids = point_ids(points.len());
    assert(ids[p as int] == p);
    assert forall|key: TileKey| #[trigger] point_tiles.cell(key).contains(p) <==> key == home by {
        let keep = in_tile_along_x(points, step, key);
        if ids.filter(keep).contains(p) {
            let i = choose|i: int| 0 <= i < ids.filter(keep).len() && ids.filter(keep)[i] == p;
            ids.lemma_filter_pred(keep, i);
        }
        if key == home {
            assert(keep(ids[p as int]));
            ids.lemma_filter_contains(keep, p as int);
        }
    }
    assert forall|key: TileKey|
        enclosed_in(
            points,
            point_tiles,
            triangle_tiles,
            direction,
            direction_opposite,
            key,
            p,
        ) <==> (key == home && hit_both_ways(
            points,
            triangles,
            direction,
            direction_opposite,
            p,
        )) by {
        let _ = point_tiles.cell(key).contains(p);
        if key == home {
            let keep = covers_along_x(points, step, home);
            assert forall|t: Triplet|
                hits_triangle(origin, direction, points, t) implies #[trigger] keep(t) by {
                lemma_hit_along_x_is_in_cell(points, step, t, origin, direction, home);
            }
            assert forall|t: Triplet|
                hits_triangle(origin, direction_opposite, points, t) implies #[trigger] keep(
                t,
            ) by {
                lemma_hit_along_x_is_in_cell(points, step, t, origin, direction_opposite, home);
            }
            lemma_filter_loses_no_hit(points, triangles, keep, origin, direction);
            lemma_filter_loses_no_hit(points, triangles, keep, origin, direction_opposite);
        }
    }
    if hit_both_ways(points, triangles, direction, direction_opposite, p) {
        assert(enclosed_in(
            points,
            point_tiles,
            triangle_tiles,
            direction,
            direction_opposite,
            home,
            p,
        ));
    }
}

/// The same for rays along y.
pub proof fn lemma_enclosed_along_y(
    points: Seq<Vector3>,
    triangles: Seq<Triplet>,
    step: Vector3,
    point_tiles: TileMap<usize>,
    triangle_tiles: TileMap<Triplet>,
    direction: Vector3,
    direction_opposite: Vector3,
    p: usize,
)
    requires
        p < points.len(),
        step.x >= 0 && step.z >= 0,
        direction.x == 0 && direction.z == 0,
        direction_opposite.x == 0 && direction_opposite.z == 0,
        forall|key: TileKey| #[trigger]
            point_tiles.cell(key) == point_ids(points.len()).filter(
                in_tile_along_y(points, step, key),
            ),
        forall|key: TileKey| #[trigger]
            triangle_tiles.cell(key) == triangles.filter(covers_along_y(points, step, key)),
    ensures
        is_enclosed(points, point_tiles, triangle_tiles, direction, direction_opposite, p)
            <==> hit_both_ways(points, triangles, direction, direction_opposite, p),
{
    let origin = points[p as int];
    let cell = tile_along_y(origin, step);
    let home: TileKey = (cell.0 as isize, cell.1 as isize);
    assert(is_tile(home, cell));
    let ids = point_ids(points.len());
    assert(ids[p as int] == p);
    assert forall|key: TileKey| #[trigger] point_tiles.cell(key).contains(p) <==> key == home by {
        let keep = in_tile_along_y(points, step, key);
        if ids.filter(keep).contains(p) {
            let i = choose|i: int| 0 <= i < ids.filter(keep).len() && ids.filter(keep)[i] == p;
            ids.lemma_filter_pred(keep, i);
        }
        if key == home {
            assert(keep(ids[p as int]));
            ids.lemma_filter_contains(keep, p as int);
        }
    }
    assert forall|key: TileKey|
        enclosed_in(
            points,
            point_tiles,
            triangle_tiles,
            direction,
            direction_opposite,
            key,
            p,
        ) <==> (key == home && hit_both_ways(
            points,
            triangles,
            direction,
            direction_opposite,
            p,
        )) by {
        let _ = point_tiles.cell(key).contains(p);
        if key == home {
            let keep = covers_along_y(points, step, home);
            assert forall|t: Triplet|
                hits_triangle(origin, direction, points, t) implies #[trigger] keep(t) by {
                lemma_hit_along_y_is_in_cell(points, step, t, origin, direction, home);
            }
            assert forall|t: Triplet|
                hits_triangle(origin, direction_opposite, points, t) implies #[trigger] keep(
                t,
            ) by {
                lemma_hit_along_y_is_in_cell(points, step, t, origin, direction_opposite, home);
            }
            lemma_filter_loses_no_hit(points, triangles, keep, origin, direction);
            lemma_filter_loses_no_hit(points, triangles, keep, origin, direction_opposite);
        }
    }
    if hit_both_ways(points, triangles, direction, direction_opposite, p) {
        assert(enclosed_in(
            points,
            point_tiles,
            triangle_tiles,
            direction,
            direction_opposite,
            home,
            p,
        ));
    }
}

} // verus!
