//! The exact ray-triangle test and its batched form.

use vstd::prelude::*;
use crate::triangle::Triplet;
use crate::triangle::triangles_valid;
use crate::vector::COORDINATE_LIMIT;
use crate::vector::MathVector;
use crate::triangle::Triangle;
use crate::vector::Vector3;
use crate::vector::cross;
use crate::vector::dot;
use crate::vector::lemma_cross_within;
use crate::vector::lemma_dot_within;
use crate::vector::max3;
use crate::vector::min3;
use crate::vector::minus;
use crate::vector::points_in_range;
use crate::vector::vec_cross_vec;
use crate::vector::vec_dot_vec;
use crate::vector::vec_minus_vec;

verus! {

/// The inverse of the tolerance of the test: the tolerance is one part in
/// ten million of a length unit, and of the ray parameter.
pub const EPSILON_INVERSE: i128 = 10_000_000;

/// The tolerance on the determinant, which is a product of three lengths:
/// `SCALE` cubed, divided by `EPSILON_INVERSE`.
pub const PARALLEL_LIMIT: i128 = 100_000_000_000_000;

/// Whether the ray from `origin` along `direction` meets the triangle
/// `a`, `b`, `c`, edges and corners included.
///
/// With `e1 = b - a`, `e2 = c - a` and `s = origin - a`, the ray meets the
/// plane of the triangle at `a + u e1 + v e2 = origin + t direction`, where
/// `u`, `v` and `t` are the quotients of `u_part`, `v_part`, `t_part` by the
/// determinant `det`. A determinant within the tolerance of zero, the
/// tolerance itself included, counts as a ray parallel to the plane, which
/// misses. Otherwise the ray hits when
/// `0 <= u <= 1`, `0 <= v`, `u + v <= 1`, and `t` exceeds the tolerance.
/// All of it is stated without division.
pub open spec fn ray_hits(
    origin: MathVector,
    direction: MathVector,
    a: MathVector,
    b: MathVector,
    c: MathVector,
) -> bool {
    let edge1 = minus(b, a);
    let edge2 = minus(c, a);
    let h = cross(direction, edge2);
    let det = dot(edge1, h);
    let s = minus(origin, a);
    let q = cross(s, edge1);
    let u_part = dot(s, h);
    let v_part = dot(direction, q);
    let t_part = dot(edge2, q);
    if det > PARALLEL_LIMIT {
        &&& 0 <= u_part <= det
        &&& 0 <= v_part
        &&& u_part + v_part <= det
        &&& t_part * EPSILON_INVERSE > det
    } else if det < -PARALLEL_LIMIT {
        &&& det <= u_part <= 0
        &&& v_part <= 0
        &&& u_part + v_part >= det
        &&& t_part * EPSILON_INVERSE < det
    } else {
        false
    }
}

/// Whether the ray meets the triangle with the given corner indices.
pub open spec fn hits_triangle(
    origin: Vector3,
    direction: Vector3,
    points: Seq<Vector3>,
    t: Triplet,
) -> bool {
    ray_hits(origin@, direction@, points[t.0 as int]@, points[t.1 as int]@, points[t.2 as int]@)
}

/// Whether the ray meets any triangle of the list.
pub open spec fn ray_hits_any(
    origin: Vector3,
    direction: Vector3,
    points: Seq<Vector3>,
    triangles: Seq<Triplet>,
) -> bool {
    exists|k: int|
        0 <= k < triangles.len() && hits_triangle(
            origin,
            direction,
            points,
            #[trigger] triangles[k],
        )
}

/// Whether the ray meets any triangle of the list.
pub fn ray_intersects_batch(
    ray_origin: &Vector3,
    ray_direction: &Vector3,
    coordinates: &[Vector3],
    triangles: &Vec<Triplet>,
) -> (r: bool)
    requires
        ray_origin.in_range(),
        ray_direction.in_range(),
        points_in_range(coordinates@),
        triangles_valid(triangles@, coordinates@.len() as int),
    ensures
        r == ray_hits_any(*ray_origin, *ray_direction, coordinates@, triangles@),
{
    let mut k: usize = 0;
    while k < triangles.len()
        invariant
            k <= triangles.len(),
            ray_origin.in_range(),
            ray_direction.in_range(),
            points_in_range(coordinates@),
            triangles_valid(triangles@, coordinates@.len() as int),
            forall|j: int|
                0 <= j < k ==> !hits_triangle(
                    *ray_origin,
                    *ray_direction,
                    coordinates@,
                    #[trigger] triangles@[j],
                ),
        decreases triangles.len() - k,
    {
        let t: Triplet = triangles[k];
        let triangle = Triangle {
            vertex1: coordinates[t.0],
            vertex2: coordinates[t.1],
            vertex3: coordinates[t.2],
        };
        if ray_intersects_triangle(ray_origin, ray_direction, &triangle) {
            return true;
        }
        k += 1;
    }
    false
}

/// Whether the ray meets the triangle. This is the test of Möller and
/// Trumbore, with every quotient cleared, so that it is exact.
pub fn ray_intersects_triangle(
    ray_origin: &Vector3,
    ray_direction: &Vector3,
    triangle: &Triangle,
) -> (r: bool)
    requires
        ray_origin.in_range(),
        ray_direction.in_range(),
        triangle.in_range(),
    ensures
        r == ray_hits(
            ray_origin@,
            ray_direction@,
            triangle.vertex1@,
            triangle.vertex2@,
            triangle.vertex3@,
        ),
{
    let ghost limit = COORDINATE_LIMIT as int;
    let edge1 = vec_minus_vec(&triangle.vertex2, &triangle.vertex1);
    let edge2 = vec_minus_vec(&triangle.vertex3, &triangle.vertex1);
    proof {
        lemma_cross_within(ray_direction@, edge2@, limit, 2 * limit);
        lemma_dot_within(
            edge1@,
            cross(ray_direction@, edge2@),
            2 * limit,
            2 * (limit * (2 * limit)),
        );
    }
    let h = vec_cross_vec(ray_direction, &edge2);
    let det: i128 = vec_dot_vec(&edge1, &h);

    if det >= -PARALLEL_LIMIT && det <= PARALLEL_LIMIT {
        return false;
    }
    let s = vec_minus_vec(ray_origin, &triangle.vertex1);
    proof {
        lemma_dot_within(s@, h@, 2 * limit, 2 * (limit * (2 * limit)));
    }
    let u_part: i128 = vec_dot_vec(&s, &h);
    if det > 0 {
        if u_part < 0 || u_part > det {
            return false;
        }
    } else {
        if u_part > 0 || u_part < det {
            return false;
        }
    }
    proof {
        lemma_cross_within(s@, edge1@, 2 * limit, 2 * limit);
        lemma_dot_within(ray_direction@, cross(s@, edge1@), limit, 2 * ((2 * limit) * (2 * limit)));
        lemma_dot_within(edge2@, cross(s@, edge1@), 2 * limit, 2 * ((2 * limit) * (2 * limit)));
    }
    let q = vec_cross_vec(&s, &edge1);
    let v_part: i128 = vec_dot_vec(ray_direction, &q);
    if det > 0 {
        if v_part < 0 || u_part + v_part > det {
            return false;
        }
    } else {
        if v_part > 0 || u_part + v_part < det {
            return false;
        }
    }
    let t_part: i128 = vec_dot_vec(&edge2, &q);
    if det > 0 {
        t_part > det / EPSILON_INVERSE
    } else {
        -t_part > (-det) / EPSILON_INVERSE
    }
}

/// A component of a vector: axis 0 is x, axis 1 is y, any other is z.
pub open spec fn component(v: MathVector, axis: int) -> int {
    if axis == 0 {
        v.x
    } else if axis == 1 {
        v.y
    } else {
        v.z
    }
}

/// The vector that points the other way.
pub open spec fn opposite(v: MathVector) -> MathVector {
    MathVector { x: -v.x, y: -v.y, z: -v.z }
}

/// The point where the ray meets the plane of the triangle, written without
/// division: `det * s = u_part * e1 + v_part * e2 - t_part * d`.
proof fn lemma_plane_point(s: MathVector, d: MathVector, e1: MathVector, e2: MathVector, axis: int)
    ensures
        dot(e1, cross(d, e2)) * component(s, axis) == dot(s, cross(d, e2)) * component(e1, axis)
            + dot(d, cross(s, e1)) * component(e2, axis) - dot(e2, cross(s, e1)) * component(
            d,
            axis,
        ),
{
    let h = cross(d, e2);
    let q = cross(s, e1);
    lemma_double_cross(h, s, e1);
    lemma_double_cross(q, e2, d);
    let back = cross(e2, d);
    assert(back == opposite(h)) by {
        assert(e2.y * d.z == d.z * e2.y && e2.z * d.y == d.y * e2.z && e2.z * d.x == d.x * e2.z
            && e2.x * d.z == d.z * e2.x && e2.x * d.y == d.y * e2.x && e2.y * d.x == d.x * e2.y)
            by (nonlinear_arith);
    }
    assert(cross(q, opposite(h)) == cross(h, q)) by {
        assert(q.y * (-h.z) == -(h.z * q.y) && q.z * (-h.y) == -(h.y * q.z) && q.z * (-h.x) == -(
        h.x * q.z) && q.x * (-h.z) == -(h.z * q.x) && q.x * (-h.y) == -(h.y * q.x) && q.y * (-h.x)
            == -(h.x * q.y)) by (nonlinear_arith);
    }
}

/// One component of the double cross product, multiplied out: with
/// `a = (a0, a1, a2)` and likewise `b` and `c`, the component 0 of
/// `a x (b x c)` is that of `(a . c) b - (a . b) c`.
proof fn lemma_double_cross_component(
    a0: int,
    a1: int,
    a2: int,
    b0: int,
    b1: int,
    b2: int,
    c0: int,
    c1: int,
    c2: int,
)
    ensures
        a1 * (b0 * c1 - b1 * c0) - a2 * (b2 * c0 - b0 * c2) == (a0 * c0 + a1 * c1 + a2 * c2) * b0
            - (a0 * b0 + a1 * b1 + a2 * b2) * c0,
{
    assert(a1 * (b0 * c1 - b1 * c0) == a1 * c1 * b0 - a1 * b1 * c0) by (nonlinear_arith);
    assert(a2 * (b2 * c0 - b0 * c2) == a2 * b2 * c0 - a2 * c2 * b0) by (nonlinear_arith);
    assert((a0 * c0 + a1 * c1 + a2 * c2) * b0 == a0 * c0 * b0 + a1 * c1 * b0 + a2 * c2 * b0)
        by (nonlinear_arith);
    assert((a0 * b0 + a1 * b1 + a2 * b2) * c0 == a0 * b0 * c0 + a1 * b1 * c0 + a2 * b2 * c0)
        by (nonlinear_arith);
    assert(a0 * c0 * b0 == a0 * b0 * c0) by (nonlinear_arith);
}

/// The double cross product: `a x (b x c) = (a . c) b - (a . b) c`.
proof fn lemma_double_cross(a: MathVector, b: MathVector, c: MathVector)
    ensures
        cross(a, cross(b, c)).x == dot(a, c) * b.x - dot(a, b) * c.x,
        cross(a, cross(b, c)).y == dot(a, c) * b.y - dot(a, b) * c.y,
        cross(a, cross(b, c)).z == dot(a, c) * b.z - dot(a, b) * c.z,
{
    lemma_double_cross_component(a.x, a.y, a.z, b.x, b.y, b.z, c.x, c.y, c.z);
    lemma_double_cross_component(a.y, a.z, a.x, b.y, b.z, b.x, c.y, c.z, c.x);
    lemma_double_cross_component(a.z, a.x, a.y, b.z, b.x, b.y, c.z, c.x, c.y);
}

/// Whether the ray meets the triangle at the point with the weights `w`,
/// `u`, `v`: the weights are of one sign and add up to `det`, `t` is of
/// that sign and not zero, and along each axis
/// `det * origin + t * direction = w * a + u * b + v * c`. The point
/// `origin + (t / det) direction`, ahead of the origin on the ray, is then
/// the weighted mean of the corners.
pub open spec fn meets_at(
    origin: MathVector,
    direction: MathVector,
    a: MathVector,
    b: MathVector,
    c: MathVector,
    det: int,
    weights: (int, int, int),
    t: int,
) -> bool {
    let (w, u, v) = weights;
    &&& det != 0 && w + u + v == det
    &&& (det > 0 ==> w >= 0 && u >= 0 && v >= 0 && t > 0)
    &&& (det < 0 ==> w <= 0 && u <= 0 && v <= 0 && t < 0)
    &&& forall|axis: int|
        det * component(origin, axis) + t * component(direction, axis) == w * component(a, axis)
            + u * component(b, axis) + v * #[trigger] component(c, axis)
}

/// Where a ray hits, it meets the triangle: some point ahead of the origin
/// on the ray is a weighted mean of the corners.
pub proof fn lemma_hit_lies_in_triangle(
    origin: MathVector,
    direction: MathVector,
    a: MathVector,
    b: MathVector,
    c: MathVector,
)
    requires
        ray_hits(origin, direction, a, b, c),
    ensures
        exists|det: int, weights: (int, int, int), t: int| #[trigger]
            meets_at(origin, direction, a, b, c, det, weights, t),
{
    let edge1 = minus(b, a);
    let edge2 = minus(c, a);
    let s = minus(origin, a);
    let det = dot(edge1, cross(direction, edge2));
    let u = dot(s, cross(direction, edge2));
    let v = dot(direction, cross(s, edge1));
    let t = dot(edge2, cross(s, edge1));
    let w = det - u - v;
    assert forall|axis: int|
        det * component(origin, axis) + t * component(direction, axis) == w * component(a, axis)
            + u * component(b, axis) + v * #[trigger] component(c, axis) by {
        lemma_plane_point(s, direction, edge1, edge2, axis);
        let (ok, ak, bk, ck, dk) = (
            component(origin, axis),
            component(a, axis),
            component(b, axis),
            component(c, axis),
            component(direction, axis),
        );
        assert(det * ok + t * dk == w * ak + u * bk + v * ck) by (nonlinear_arith)
            requires
                det * (ok - ak) == u * (bk - ak) + v * (ck - ak) - t * dk,
                w == det - u - v,
        ;
    }
    assert(meets_at(origin, direction, a, b, c, det, (w, u, v), t));
}

/// A point that is a weighted mean of three values, moved on by a
/// non-negative amount, is not below all three.
proof fn lemma_mean_not_below(
    det: int,
    u: int,
    v: int,
    t: int,
    o: int,
    a: int,
    b: int,
    c: int,
    d: int,
)
    requires
        det > 0,
        0 <= u,
        0 <= v,
        u + v <= det,
        t >= 0,
        d <= 0,
        det * (o - a) == u * (b - a) + v * (c - a) - t * d,
    ensures
        o >= min3(a, b, c),
{
    let m = min3(a, b, c);
    let w = det - u - v;
    if o < m {
        assert(w * a >= w * m) by (nonlinear_arith)
            requires
                w >= 0,
                a >= m,
        ;
        assert(u * b >= u * m) by (nonlinear_arith)
            requires
                u >= 0,
                b >= m,
        ;
        assert(v * c >= v * m) by (nonlinear_arith)
            requires
                v >= 0,
                c >= m,
        ;
        assert(t * d <= 0) by (nonlinear_arith)
            requires
                t >= 0,
                d <= 0,
        ;
        assert(det * o < det * m) by (nonlinear_arith)
            requires
                det > 0,
                o < m,
        ;
        assert(det * o == w * a + u * b + v * c - t * d) by (nonlinear_arith)
            requires
                det * (o - a) == u * (b - a) + v * (c - a) - t * d,
                w == det - u - v,
        ;
        assert(w * m + u * m + v * m == det * m) by (nonlinear_arith)
            requires
                w == det - u - v,
        ;
        assert(false);
    }
}

/// A ray that starts below the triangle along some axis and does not rise
/// along it, or starts above and does not descend, misses the triangle.
pub proof fn lemma_ray_beyond_extent_misses(
    origin: MathVector,
    direction: MathVector,
    a: MathVector,
    b: MathVector,
    c: MathVector,
    axis: int,
)
    requires
        (component(origin, axis) < min3(component(a, axis), component(b, axis), component(c, axis))
            && component(direction, axis) <= 0) || (component(origin, axis) > max3(
            component(a, axis),
            component(b, axis),
            component(c, axis),
        ) && component(direction, axis) >= 0),
    ensures
        !ray_hits(origin, direction, a, b, c),
{
    let edge1 = minus(b, a);
    let edge2 = minus(c, a);
    let s = minus(origin, a);
    let det = dot(edge1, cross(direction, edge2));
    let u = dot(s, cross(direction, edge2));
    let v = dot(direction, cross(s, edge1));
    let t = dot(edge2, cross(s, edge1));
    let (ok, ak, bk, ck, dk) = (
        component(origin, axis),
        component(a, axis),
        component(b, axis),
        component(c, axis),
        component(direction, axis),
    );
    if ray_hits(origin, direction, a, b, c) {
        lemma_plane_point(s, direction, edge1, edge2, axis);
        assert(det * (ok - ak) == u * (bk - ak) + v * (ck - ak) - t * dk);
        let below = ok < min3(ak, bk, ck) && dk <= 0;
        if det > 0 {
            if below {
                lemma_mean_not_below(det, u, v, t, ok, ak, bk, ck, dk);
            } else {
                assert(det * (-ok - -ak) == u * (-bk - -ak) + v * (-ck - -ak) - t * (-dk))
                    by (nonlinear_arith)
                    requires
                        det * (ok - ak) == u * (bk - ak) + v * (ck - ak) - t * dk,
                ;
                lemma_mean_not_below(det, u, v, t, -ok, -ak, -bk, -ck, -dk);
            }
        } else {
            if below {
                assert((-det) * (ok - ak) == (-u) * (bk - ak) + (-v) * (ck - ak) - (-t) * dk)
                    by (nonlinear_arith)
                    requires
                        det * (ok - ak) == u * (bk - ak) + v * (ck - ak) - t * dk,
                ;
                lemma_mean_not_below(-det, -u, -v, -t, ok, ak, bk, ck, dk);
            } else {
                assert((-det) * (-ok - -ak) == (-u) * (-bk - -ak) + (-v) * (-ck - -ak) - (-t) * (
                -dk)) by (nonlinear_arith)
                    requires
                        det * (ok - ak) == u * (bk - ak) + v * (ck - ak) - t * dk,
                ;
                lemma_mean_not_below(-det, -u, -v, -t, -ok, -ak, -bk, -ck, -dk);
            }
        }
    }
}

/// A point that is a weighted mean of three values, moved on by a positive
/// amount, is above the least of the three.
proof fn lemma_mean_above(
    det: int,
    u: int,
    v: int,
    t: int,
    o: int,
    a: int,
    b: int,
    c: int,
    d: int,
)
    requires
        det > 0,
        0 <= u,
        0 <= v,
        u + v <= det,
        t > 0,
        d < 0,
        det * (o - a) == u * (b - a) + v * (c - a) - t * d,
    ensures
        o > min3(a, b, c),
{
    let m = min3(a, b, c);
    let w = det - u - v;
    if o <= m {
        assert(w * a >= w * m) by (nonlinear_arith)
            requires
                w >= 0,
                a >= m,
        ;
        assert(u * b >= u * m) by (nonlinear_arith)
            requires
                u >= 0,
                b >= m,
        ;
        assert(v * c >= v * m) by (nonlinear_arith)
            requires
                v >= 0,
                c >= m,
        ;
        assert(t * d < 0) by (nonlinear_arith)
            requires
                t > 0,
                d < 0,
        ;
        assert(det * o <= det * m) by (nonlinear_arith)
            requires
                det > 0,
                o <= m,
        ;
        assert(det * o == w * a + u * b + v * c - t * d) by (nonlinear_arith)
            requires
                det * (o - a) == u * (b - a) + v * (c - a) - t * d,
                w == det - u - v,
        ;
        assert(w * m + u * m + v * m == det * m) by (nonlinear_arith)
            requires
                w == det - u - v,
        ;
    }
}

/// A ray that starts at the low end of the triangle along some axis, or
/// below it, and descends along that axis, or starts at the high end, or
/// above it, and rises, misses the triangle: what it meets lies ahead of
/// its origin.
pub proof fn lemma_ray_leaving_extent_misses(
    origin: MathVector,
    direction: MathVector,
    a: MathVector,
    b: MathVector,
    c: MathVector,
    axis: int,
)
    requires
        (component(origin, axis) <= min3(component(a, axis), component(b, axis), component(c, axis))
            && component(direction, axis) < 0) || (component(origin, axis) >= max3(
            component(a, axis),
            component(b, axis),
            component(c, axis),
        ) && component(direction, axis) > 0),
    ensures
        !ray_hits(origin, direction, a, b, c),
{
    let edge1 = minus(b, a);
    let edge2 = minus(c, a);
    let s = minus(origin, a);
    let det = dot(edge1, cross(direction, edge2));
    let u = dot(s, cross(direction, edge2));
    let v = dot(direction, cross(s, edge1));
    let t = dot(edge2, cross(s, edge1));
    let (ok, ak, bk, ck, dk) = (
        component(origin, axis),
        component(a, axis),
        component(b, axis),
        component(c, axis),
        component(direction, axis),
    );
    if ray_hits(origin, direction, a, b, c) {
        lemma_plane_point(s, direction, edge1, edge2, axis);
        assert(det * (ok - ak) == u * (bk - ak) + v * (ck - ak) - t * dk);
        let below = ok <= min3(ak, bk, ck) && dk < 0;
        if det > 0 {
            if below {
                lemma_mean_above(det, u, v, t, ok, ak, bk, ck, dk);
            } else {
                assert(det * (-ok - -ak) == u * (-bk - -ak) + v * (-ck - -ak) - t * (-dk))
                    by (nonlinear_arith)
                    requires
                        det * (ok - ak) == u * (bk - ak) + v * (ck - ak) - t * dk,
                ;
                lemma_mean_above(det, u, v, t, -ok, -ak, -bk, -ck, -dk);
            }
        } else {
            if below {
                assert((-det) * (ok - ak) == (-u) * (bk - ak) + (-v) * (ck - ak) - (-t) * dk)
                    by (nonlinear_arith)
                    requires
                        det * (ok - ak) == u * (bk - ak) + v * (ck - ak) - t * dk,
                ;
                lemma_mean_above(-det, -u, -v, -t, ok, ak, bk, ck, dk);
            } else {
                assert((-det) * (-ok - -ak) == (-u) * (-bk - -ak) + (-v) * (-ck - -ak) - (-t) * (
                -dk)) by (nonlinear_arith)
                    requires
                        det * (ok - ak) == u * (bk - ak) + v * (ck - ak) - t * dk,
                ;
                lemma_mean_above(-det, -u, -v, -t, -ok, -ak, -bk, -ck, -dk);
            }
        }
    }
}

/// Whether a point lies outside the extent of a triangle along an axis.
pub open spec fn outside_extent(
    origin: MathVector,
    a: MathVector,
    b: MathVector,
    c: MathVector,
    axis: int,
) -> bool {
    ||| component(origin, axis) < min3(component(a, axis), component(b, axis), component(c, axis))
    ||| component(origin, axis) > max3(component(a, axis), component(b, axis), component(c, axis))
}

/// Whether a direction runs along a coordinate axis.
pub open spec fn along_an_axis(direction: MathVector) -> bool {
    ||| direction.y == 0 && direction.z == 0
    ||| direction.x == 0 && direction.z == 0
    ||| direction.x == 0 && direction.y == 0
}

/// A ray along a coordinate axis whose origin lies outside the bounding box
/// of a triangle along all three axes misses the triangle, whichever way it
/// points.
pub proof fn lemma_outside_ray_misses(
    origin: MathVector,
    direction: MathVector,
    a: MathVector,
    b: MathVector,
    c: MathVector,
)
    requires
        along_an_axis(direction),
        outside_extent(origin, a, b, c, 0),
        outside_extent(origin, a, b, c, 1),
        outside_extent(origin, a, b, c, 2),
    ensures
        !ray_hits(origin, direction, a, b, c),
        !ray_hits(origin, opposite(direction), a, b, c),
{
    let axis: int = if direction.y == 0 {
        1
    } else {
        0
    };
    assert(component(direction, axis) == 0);
    lemma_ray_beyond_extent_misses(origin, direction, a, b, c, axis);
    lemma_ray_beyond_extent_misses(origin, opposite(direction), a, b, c, axis);
}

} // verus!
