//! A box with sides along the axes, as a mesh, and the points inside of it.

use vstd::prelude::*;
use crate::intersection::EPSILON_INVERSE;
use crate::intersection::PARALLEL_LIMIT;
use crate::intersection::hits_triangle;
use crate::intersection::ray_hits;
use crate::intersection::ray_hits_any;
use crate::pipeline::along_x;
use crate::pipeline::along_y;
use crate::pipeline::is_inside;
use crate::triangle::Triplet;
use crate::vector::MathVector;
use crate::vector::SCALE;
use crate::vector::Vector3;
use crate::vector::cross;
use crate::vector::dot;
use crate::vector::minus;

verus! {

/// The corner of the box at the low or the high end along each axis.
pub open spec fn corner(low: Vector3, high: Vector3, x: bool, y: bool, z: bool) -> Vector3 {
    Vector3 {
        x: if x { high.x } else { low.x },
        y: if y { high.y } else { low.y },
        z: if z { high.z } else { low.z },
    }
}

/// The eight corners of the box: the corner at place `4 x + 2 y + z` is at
/// the high end along the axes for which the digit is one.
pub open spec fn box_points(low: Vector3, high: Vector3) -> Seq<Vector3> {
    seq![
        corner(low, high, false, false, false),
        corner(low, high, false, false, true),
        corner(low, high, false, true, false),
        corner(low, high, false, true, true),
        corner(low, high, true, false, false),
        corner(low, high, true, false, true),
        corner(low, high, true, true, false),
        corner(low, high, true, true, true),
    ]
}

/// The four triangles of the faces of the box across x, two at the low end
/// and two at the high end, wound outward.
pub open spec fn faces_across_x() -> Seq<Triplet> {
    seq![(0usize, 1usize, 3usize), (0usize, 3usize, 2usize), (4usize, 7usize, 5usize), (
        4usize,
        6usize,
        7usize,
    )]
}

/// The four triangles of the faces of the box across y, wound outward.
pub open spec fn faces_across_y() -> Seq<Triplet> {
    seq![(0usize, 5usize, 1usize), (0usize, 4usize, 5usize), (2usize, 3usize, 7usize), (
        2usize,
        7usize,
        6usize,
    )]
}

/// A ray along x meets a triangle across x where the point of the ray in
/// the plane of the triangle has weights of one sign: with `area` twice the
/// area of the triangle, signed, and `u` and `v` the like for the point and
/// two corners.
proof fn lemma_hit_along_x(o: MathVector, dx: int, a: MathVector, b: MathVector, c: MathVector)
    requires
        a.x == b.x && a.x == c.x,
        ({
            let area = (b.y - a.y) * (c.z - a.z) - (b.z - a.z) * (c.y - a.y);
            let u = (o.y - a.y) * (c.z - a.z) - (o.z - a.z) * (c.y - a.y);
            let v = (b.y - a.y) * (o.z - a.z) - (b.z - a.z) * (o.y - a.y);
            &&& dx * area > PARALLEL_LIMIT
            &&& 0 <= dx * u <= dx * area
            &&& 0 <= dx * v
            &&& dx * u + dx * v <= dx * area
            &&& (o.x - a.x) * area * EPSILON_INVERSE < -(dx * area)
        }),
    ensures
        ray_hits(o, MathVector { x: dx, y: 0, z: 0 }, a, b, c),
{
    let d = MathVector { x: dx, y: 0, z: 0 };
    let e1 = minus(b, a);
    let e2 = minus(c, a);
    let s = minus(o, a);
    let area = e1.y * e2.z - e1.z * e2.y;
    let u = s.y * e2.z - s.z * e2.y;
    let v = e1.y * s.z - e1.z * s.y;
    let h = cross(d, e2);
    let q = cross(s, e1);
    assert(h.x == 0);
    assert(h.y == -(dx * e2.z));
    assert(h.z == dx * e2.y);
    assert(e1.x == 0 && e2.x == 0);
    assert(dot(e1, h) == -(dx * area)) by (nonlinear_arith)
        requires
            dot(e1, h) == e1.x * h.x + e1.y * h.y + e1.z * h.z,
            e1.x == 0,
            h.y == -(dx * e2.z),
            h.z == dx * e2.y,
            area == e1.y * e2.z - e1.z * e2.y,
    ;
    assert(dot(s, h) == -(dx * u)) by (nonlinear_arith)
        requires
            dot(s, h) == s.x * h.x + s.y * h.y + s.z * h.z,
            h.x == 0,
            h.y == -(dx * e2.z),
            h.z == dx * e2.y,
            u == s.y * e2.z - s.z * e2.y,
    ;
    assert(q.x == s.y * e1.z - s.z * e1.y);
    assert(dot(d, q) == -(dx * v)) by (nonlinear_arith)
        requires
            dot(d, q) == dx * q.x + 0 * q.y + 0 * q.z,
            q.x == s.y * e1.z - s.z * e1.y,
            v == e1.y * s.z - e1.z * s.y,
    ;
    assert(dot(e2, q) == s.x * area) by (nonlinear_arith)
        requires
            dot(e2, q) == e2.x * q.x + e2.y * q.y + e2.z * q.z,
            e2.x == 0,
            q.y == s.z * e1.x - s.x * e1.z,
            q.z == s.x * e1.y - s.y * e1.x,
            e1.x == 0,
            area == e1.y * e2.z - e1.z * e2.y,
    ;
    assert(dot(e2, q) * EPSILON_INVERSE == s.x * area * EPSILON_INVERSE) by (nonlinear_arith)
        requires
            dot(e2, q) == s.x * area,
    ;
}

/// The same for a ray along y and a triangle across y.
proof fn lemma_hit_along_y(o: MathVector, dy: int, a: MathVector, b: MathVector, c: MathVector)
    requires
        a.y == b.y && a.y == c.y,
        ({
            let area = (b.z - a.z) * (c.x - a.x) - (b.x - a.x) * (c.z - a.z);
            let u = (o.z - a.z) * (c.x - a.x) - (o.x - a.x) * (c.z - a.z);
            let v = (b.z - a.z) * (o.x - a.x) - (b.x - a.x) * (o.z - a.z);
            &&& dy * area > PARALLEL_LIMIT
            &&& 0 <= dy * u <= dy * area
            &&& 0 <= dy * v
            &&& dy * u + dy * v <= dy * area
            &&& (o.y - a.y) * area * EPSILON_INVERSE < -(dy * area)
        }),
    ensures
        ray_hits(o, MathVector { x: 0, y: dy, z: 0 }, a, b, c),
{
    let d = MathVector { x: 0, y: dy, z: 0 };
    let e1 = minus(b, a);
    let e2 = minus(c, a);
    let s = minus(o, a);
    let area = e1.z * e2.x - e1.x * e2.z;
    let u = s.z * e2.x - s.x * e2.z;
    let v = e1.z * s.x - e1.x * s.z;
    let h = cross(d, e2);
    let q = cross(s, e1);
    assert(h.y == 0);
    assert(h.z == -(dy * e2.x));
    assert(h.x == dy * e2.z);
    assert(e1.y == 0 && e2.y == 0);
    assert(dot(e1, h) == -(dy * area)) by (nonlinear_arith)
        requires
            dot(e1, h) == e1.x * h.x + e1.y * h.y + e1.z * h.z,
            e1.y == 0,
            h.z == -(dy * e2.x),
            h.x == dy * e2.z,
            area == e1.z * e2.x - e1.x * e2.z,
    ;
    assert(dot(s, h) == -(dy * u)) by (nonlinear_arith)
        requires
            dot(s, h) == s.x * h.x + s.y * h.y + s.z * h.z,
            h.y == 0,
            h.z == -(dy * e2.x),
            h.x == dy * e2.z,
            u == s.z * e2.x - s.x * e2.z,
    ;
    assert(q.y == s.z * e1.x - s.x * e1.z);
    assert(dot(d, q) == -(dy * v)) by (nonlinear_arith)
        requires
            dot(d, q) == 0 * q.x + dy * q.y + 0 * q.z,
            q.y == s.z * e1.x - s.x * e1.z,
            v == e1.z * s.x - e1.x * s.z,
    ;
    assert(dot(e2, q) == s.y * area) by (nonlinear_arith)
        requires
            dot(e2, q) == e2.x * q.x + e2.y * q.y + e2.z * q.z,
            e2.y == 0,
            q.z == s.x * e1.y - s.y * e1.x,
            q.x == s.y * e1.z - s.z * e1.y,
            e1.y == 0,
            area == e1.z * e2.x - e1.x * e2.z,
    ;
    assert(dot(e2, q) * EPSILON_INVERSE == s.y * area * EPSILON_INVERSE) by (nonlinear_arith)
        requires
            dot(e2, q) == s.y * area,
    ;
}

/// Products of a point in a rectangle of width `w` and height `h`, at
/// `p` and `q` from its low corner, and of a gap `g` of more than one unit.
proof fn lemma_rectangle(w: int, h: int, p: int, q: int, g: int)
    requires
        0 <= p <= w,
        0 <= q <= h,
        w * h > 0,
        g > 1,
    ensures
        0 <= p * h <= w * h,
        0 <= w * q <= w * h,
        g * (w * h) > w * h,
{
    assert(0 <= p * h <= w * h) by (nonlinear_arith)
        requires
            0 <= p <= w,
            0 <= h,
    ;
    assert(0 <= w * q <= w * h) by (nonlinear_arith)
        requires
            0 <= q <= h,
            0 <= w,
    ;
    assert(g * (w * h) > w * h) by (nonlinear_arith)
        requires
            g > 1,
            w * h > 0,
    ;
}

/// A ray along x, either way, from a point between the faces across x of a
/// box, more than a unit from the face ahead, meets one of the two
/// triangles of that face.
proof fn lemma_ray_meets_face_across_x(low: Vector3, high: Vector3, o: Vector3, forward: bool)
    requires
        low.y <= o.y <= high.y,
        low.z <= o.z <= high.z,
        (high.y - low.y) * (high.z - low.z) > SCALE,
        forward ==> high.x - o.x > 1,
        !forward ==> o.x - low.x > 1,
    ensures
        ({
            let first = if forward {
                (4usize, 7usize, 5usize)
            } else {
                (0usize, 1usize, 3usize)
            };
            let second = if forward {
                (4usize, 6usize, 7usize)
            } else {
                (0usize, 3usize, 2usize)
            };
            hits_triangle(o, along_x(forward), box_points(low, high), first) || hits_triangle(
                o,
                along_x(forward),
                box_points(low, high),
                second,
            )
        }),
{
    let points = box_points(low, high);
    let (w, h) = (high.y - low.y, high.z - low.z);
    let (p, q) = (o.y - low.y, o.z - low.z);
    let g = if forward {
        high.x - o.x
    } else {
        o.x - low.x
    };
    assert(0 <= w && 0 <= h);
    lemma_rectangle(w, h, p, q, g);
    assert(along_x(true)@ == (MathVector { x: 10_000_000, y: 0, z: 0 }));
    assert(along_x(false)@ == (MathVector { x: -10_000_000, y: 0, z: 0 }));
    if forward {
        if w * q >= p * h {
            let (a, b, c) = (points[4]@, points[7]@, points[5]@);
            let area = (b.y - a.y) * (c.z - a.z) - (b.z - a.z) * (c.y - a.y);
            let u = (o@.y - a.y) * (c.z - a.z) - (o@.z - a.z) * (c.y - a.y);
            let v = (b.y - a.y) * (o@.z - a.z) - (b.z - a.z) * (o@.y - a.y);
            assert(area == w * h && u == p * h && v == w * q - p * h) by (nonlinear_arith)
                requires
                    area == (b.y - a.y) * (c.z - a.z) - (b.z - a.z) * (c.y - a.y),
                    u == (o@.y - a.y) * (c.z - a.z) - (o@.z - a.z) * (c.y - a.y),
                    v == (b.y - a.y) * (o@.z - a.z) - (b.z - a.z) * (o@.y - a.y),
                    b.y - a.y == w,
                    b.z - a.z == h,
                    c.y - a.y == 0,
                    c.z - a.z == h,
                    o@.y - a.y == p,
                    o@.z - a.z == q,
            ;
            assert((o@.x - a.x) * area == -(g * (w * h))) by (nonlinear_arith)
                requires
                    o@.x - a.x == -g,
                    area == w * h,
            ;
            lemma_hit_along_x(o@, 10_000_000, a, b, c);
        } else {
            let (a, b, c) = (points[4]@, points[6]@, points[7]@);
            let area = (b.y - a.y) * (c.z - a.z) - (b.z - a.z) * (c.y - a.y);
            let u = (o@.y - a.y) * (c.z - a.z) - (o@.z - a.z) * (c.y - a.y);
            let v = (b.y - a.y) * (o@.z - a.z) - (b.z - a.z) * (o@.y - a.y);
            assert(area == w * h && u == p * h - w * q && v == w * q) by (nonlinear_arith)
                requires
                    area == (b.y - a.y) * (c.z - a.z) - (b.z - a.z) * (c.y - a.y),
                    u == (o@.y - a.y) * (c.z - a.z) - (o@.z - a.z) * (c.y - a.y),
                    v == (b.y - a.y) * (o@.z - a.z) - (b.z - a.z) * (o@.y - a.y),
                    b.y - a.y == w,
                    b.z - a.z == 0,
                    c.y - a.y == w,
                    c.z - a.z == h,
                    o@.y - a.y == p,
                    o@.z - a.z == q,
            ;
            assert((o@.x - a.x) * area == -(g * (w * h))) by (nonlinear_arith)
                requires
                    o@.x - a.x == -g,
                    area == w * h,
            ;
            lemma_hit_along_x(o@, 10_000_000, a, b, c);
        }
    } else {
        if w * q >= p * h {
            let (a, b, c) = (points[0]@, points[1]@, points[3]@);
            let area = (b.y - a.y) * (c.z - a.z) - (b.z - a.z) * (c.y - a.y);
            let u = (o@.y - a.y) * (c.z - a.z) - (o@.z - a.z) * (c.y - a.y);
            let v = (b.y - a.y) * (o@.z - a.z) - (b.z - a.z) * (o@.y - a.y);
            assert(area == -(w * h) && u == p * h - w * q && v == -(p * h)) by (nonlinear_arith)
                requires
                    area == (b.y - a.y) * (c.z - a.z) - (b.z - a.z) * (c.y - a.y),
                    u == (o@.y - a.y) * (c.z - a.z) - (o@.z - a.z) * (c.y - a.y),
                    v == (b.y - a.y) * (o@.z - a.z) - (b.z - a.z) * (o@.y - a.y),
                    b.y - a.y == 0,
                    b.z - a.z == h,
                    c.y - a.y == w,
                    c.z - a.z == h,
                    o@.y - a.y == p,
                    o@.z - a.z == q,
            ;
            assert((o@.x - a.x) * area == -(g * (w * h))) by (nonlinear_arith)
                requires
                    o@.x - a.x == g,
                    area == -(w * h),
            ;
            lemma_hit_along_x(o@, -10_000_000, a, b, c);
        } else {
            let (a, b, c) = (points[0]@, points[3]@, points[2]@);
            let area = (b.y - a.y) * (c.z - a.z) - (b.z - a.z) * (c.y - a.y);
            let u = (o@.y - a.y) * (c.z - a.z) - (o@.z - a.z) * (c.y - a.y);
            let v = (b.y - a.y) * (o@.z - a.z) - (b.z - a.z) * (o@.y - a.y);
            assert(area == -(w * h) && u == -(w * q) && v == w * q - p * h) by (nonlinear_arith)
                requires
                    area == (b.y - a.y) * (c.z - a.z) - (b.z - a.z) * (c.y - a.y),
                    u == (o@.y - a.y) * (c.z - a.z) - (o@.z - a.z) * (c.y - a.y),
                    v == (b.y - a.y) * (o@.z - a.z) - (b.z - a.z) * (o@.y - a.y),
                    b.y - a.y == w,
                    b.z - a.z == h,
                    c.y - a.y == w,
                    c.z - a.z == 0,
                    o@.y - a.y == p,
                    o@.z - a.z == q,
            ;
            assert((o@.x - a.x) * area == -(g * (w * h))) by (nonlinear_arith)
                requires
                    o@.x - a.x == g,
                    area == -(w * h),
            ;
            lemma_hit_along_x(o@, -10_000_000, a, b, c);
        }
    }
}

/// The same for a ray along y and the faces across y.
proof fn lemma_ray_meets_face_across_y(low: Vector3, high: Vector3, o: Vector3, forward: bool)
    requires
        low.z <= o.z <= high.z,
        low.x <= o.x <= high.x,
        (high.z - low.z) * (high.x - low.x) > SCALE,
        forward ==> high.y - o.y > 1,
        !forward ==> o.y - low.y > 1,
    ensures
        ({
            let first = if forward {
                (2usize, 3usize, 7usize)
            } else {
                (0usize, 5usize, 1usize)
            };
            let second = if forward {
                (2usize, 7usize, 6usize)
            } else {
                (0usize, 4usize, 5usize)
            };
            hits_triangle(o, along_y(forward), box_points(low, high), first) || hits_triangle(
                o,
                along_y(forward),
                box_points(low, high),
                second,
            )
        }),
{
    let points = box_points(low, high);
    let (w, h) = (high.z - low.z, high.x - low.x);
    let (p, q) = (o.z - low.z, o.x - low.x);
    let g = if forward {
        high.y - o.y
    } else {
        o.y - low.y
    };
    assert(0 <= w && 0 <= h);
    lemma_rectangle(w, h, p, q, g);
    assert(along_y(true)@ == (MathVector { x: 0, y: 10_000_000, z: 0 }));
    assert(along_y(false)@ == (MathVector { x: 0, y: -10_000_000, z: 0 }));
    if forward {
        if w * q >= p * h {
            let (a, b, c) = (points[2]@, points[7]@, points[6]@);
            let area = (b.z - a.z) * (c.x - a.x) - (b.x - a.x) * (c.z - a.z);
            let u = (o@.z - a.z) * (c.x - a.x) - (o@.x - a.x) * (c.z - a.z);
            let v = (b.z - a.z) * (o@.x - a.x) - (b.x - a.x) * (o@.z - a.z);
            assert(area == w * h && u == p * h && v == w * q - p * h) by (nonlinear_arith)
                requires
                    area == (b.z - a.z) * (c.x - a.x) - (b.x - a.x) * (c.z - a.z),
                    u == (o@.z - a.z) * (c.x - a.x) - (o@.x - a.x) * (c.z - a.z),
                    v == (b.z - a.z) * (o@.x - a.x) - (b.x - a.x) * (o@.z - a.z),
                    b.z - a.z == w,
                    b.x - a.x == h,
                    c.z - a.z == 0,
                    c.x - a.x == h,
                    o@.z - a.z == p,
                    o@.x - a.x == q,
            ;
            assert((o@.y - a.y) * area == -(g * (w * h))) by (nonlinear_arith)
                requires
                    o@.y - a.y == -g,
                    area == w * h,
            ;
            lemma_hit_along_y(o@, 10_000_000, a, b, c);
        } else {
            let (a, b, c) = (points[2]@, points[3]@, points[7]@);
            let area = (b.z - a.z) * (c.x - a.x) - (b.x - a.x) * (c.z - a.z);
            let u = (o@.z - a.z) * (c.x - a.x) - (o@.x - a.x) * (c.z - a.z);
            let v = (b.z - a.z) * (o@.x - a.x) - (b.x - a.x) * (o@.z - a.z);
            assert(area == w * h && u == p * h - w * q && v == w * q) by (nonlinear_arith)
                requires
                    area == (b.z - a.z) * (c.x - a.x) - (b.x - a.x) * (c.z - a.z),
                    u == (o@.z - a.z) * (c.x - a.x) - (o@.x - a.x) * (c.z - a.z),
                    v == (b.z - a.z) * (o@.x - a.x) - (b.x - a.x) * (o@.z - a.z),
                    b.z - a.z == w,
                    b.x - a.x == 0,
                    c.z - a.z == w,
                    c.x - a.x == h,
                    o@.z - a.z == p,
                    o@.x - a.x == q,
            ;
            assert((o@.y - a.y) * area == -(g * (w * h))) by (nonlinear_arith)
                requires
                    o@.y - a.y == -g,
                    area == w * h,
            ;
            lemma_hit_along_y(o@, 10_000_000, a, b, c);
        }
    } else {
        if w * q >= p * h {
            let (a, b, c) = (points[0]@, points[4]@, points[5]@);
            let area = (b.z - a.z) * (c.x - a.x) - (b.x - a.x) * (c.z - a.z);
            let u = (o@.z - a.z) * (c.x - a.x) - (o@.x - a.x) * (c.z - a.z);
            let v = (b.z - a.z) * (o@.x - a.x) - (b.x - a.x) * (o@.z - a.z);
            assert(area == -(w * h) && u == p * h - w * q && v == -(p * h)) by (nonlinear_arith)
                requires
                    area == (b.z - a.z) * (c.x - a.x) - (b.x - a.x) * (c.z - a.z),
                    u == (o@.z - a.z) * (c.x - a.x) - (o@.x - a.x) * (c.z - a.z),
                    v == (b.z - a.z) * (o@.x - a.x) - (b.x - a.x) * (o@.z - a.z),
                    b.z - a.z == 0,
                    b.x - a.x == h,
                    c.z - a.z == w,
                    c.x - a.x == h,
                    o@.z - a.z == p,
                    o@.x - a.x == q,
            ;
            assert((o@.y - a.y) * area == -(g * (w * h))) by (nonlinear_arith)
                requires
                    o@.y - a.y == g,
                    area == -(w * h),
            ;
            lemma_hit_along_y(o@, -10_000_000, a, b, c);
        } else {
            let (a, b, c) = (points[0]@, points[5]@, points[1]@);
            let area = (b.z - a.z) * (c.x - a.x) - (b.x - a.x) * (c.z - a.z);
            let u = (o@.z - a.z) * (c.x - a.x) - (o@.x - a.x) * (c.z - a.z);
            let v = (b.z - a.z) * (o@.x - a.x) - (b.x - a.x) * (o@.z - a.z);
            assert(area == -(w * h) && u == -(w * q) && v == w * q - p * h) by (nonlinear_arith)
                requires
                    area == (b.z - a.z) * (c.x - a.x) - (b.x - a.x) * (c.z - a.z),
                    u == (o@.z - a.z) * (c.x - a.x) - (o@.x - a.x) * (c.z - a.z),
                    v == (b.z - a.z) * (o@.x - a.x) - (b.x - a.x) * (o@.z - a.z),
                    b.z - a.z == w,
                    b.x - a.x == h,
                    c.z - a.z == w,
                    c.x - a.x == 0,
                    o@.z - a.z == p,
                    o@.x - a.x == q,
            ;
            assert((o@.y - a.y) * area == -(g * (w * h))) by (nonlinear_arith)
                requires
                    o@.y - a.y == g,
                    area == -(w * h),
            ;
            lemma_hit_along_y(o@, -10_000_000, a, b, c);
        }
    }
}

/// A ray that meets a triangle of the list meets the list.
proof fn lemma_hit_is_listed(
    origin: Vector3,
    direction: Vector3,
    points: Seq<Vector3>,
    triangles: Seq<Triplet>,
    t: Triplet,
)
    requires
        triangles.contains(t),
        hits_triangle(origin, direction, points, t),
    ensures
        ray_hits_any(origin, direction, points, triangles),
{
    let k = choose|k: int| 0 <= k < triangles.len() && triangles[k] == t;
    assert(hits_triangle(origin, direction, points, triangles[k]));
}

/// Whether the mesh holds the box: its first eight points are the corners
/// of the box, and its triangles include those of the four faces across x
/// and y.
pub open spec fn holds_box(
    points: Seq<Vector3>,
    triangles: Seq<Triplet>,
    low: Vector3,
    high: Vector3,
) -> bool {
    &&& points.len() >= 8
    &&& forall|i: int| 0 <= i < 8 ==> #[trigger] points[i] == box_points(low, high)[i]
    &&& forall|k: int| 0 <= k < 4 ==> triangles.contains(#[trigger] faces_across_x()[k])
    &&& forall|k: int| 0 <= k < 4 ==> triangles.contains(#[trigger] faces_across_y()[k])
}

/// Whether the point lies within the box, more than one unit from its
/// faces across x and y.
pub open spec fn well_within(o: Vector3, low: Vector3, high: Vector3) -> bool {
    &&& o.x - low.x > 1 && high.x - o.x > 1
    &&& o.y - low.y > 1 && high.y - o.y > 1
    &&& low.z <= o.z <= high.z
}

/// A point of a mesh that holds a box is inside the mesh if it lies well
/// within the box. The faces across x and y must be larger than the
/// tolerance of the intersection test lets pass.
pub proof fn lemma_inside_a_box(
    points: Seq<Vector3>,
    triangles: Seq<Triplet>,
    low: Vector3,
    high: Vector3,
    p: usize,
)
    requires
        holds_box(points, triangles, low, high),
        p < points.len(),
        well_within(points[p as int], low, high),
        (high.y - low.y) * (high.z - low.z) > SCALE,
        (high.z - low.z) * (high.x - low.x) > SCALE,
    ensures
        is_inside(points, triangles, p),
{
    let o = points[p as int];
    let corners = box_points(low, high);
    let across_x = faces_across_x();
    let across_y = faces_across_y();
    assert(triangles.contains(across_x[0]) && triangles.contains(across_x[1])
        && triangles.contains(across_x[2]) && triangles.contains(across_x[3]));
    assert(triangles.contains(across_y[0]) && triangles.contains(across_y[1])
        && triangles.contains(across_y[2]) && triangles.contains(across_y[3]));
    assert(points[0] == corners[0] && points[1] == corners[1] && points[2] == corners[2]
        && points[3] == corners[3] && points[4] == corners[4] && points[5] == corners[5]
        && points[6] == corners[6] && points[7] == corners[7]);
    lemma_ray_meets_face_across_x(low, high, o, true);
    if hits_triangle(o, along_x(true), corners, across_x[2]) {
        lemma_hit_is_listed(o, along_x(true), points, triangles, across_x[2]);
    } else {
        lemma_hit_is_listed(o, along_x(true), points, triangles, across_x[3]);
    }
    lemma_ray_meets_face_across_x(low, high, o, false);
    if hits_triangle(o, along_x(false), corners, across_x[0]) {
        lemma_hit_is_listed(o, along_x(false), points, triangles, across_x[0]);
    } else {
        lemma_hit_is_listed(o, along_x(false), points, triangles, across_x[1]);
    }
    lemma_ray_meets_face_across_y(low, high, o, true);
    if hits_triangle(o, along_y(true), corners, across_y[2]) {
        lemma_hit_is_listed(o, along_y(true), points, triangles, across_y[2]);
    } else {
        lemma_hit_is_listed(o, along_y(true), points, triangles, across_y[3]);
    }
    lemma_ray_meets_face_across_y(low, high, o, false);
    if hits_triangle(o, along_y(false), corners, across_y[0]) {
        lemma_hit_is_listed(o, along_y(false), points, triangles, across_y[0]);
    } else {
        lemma_hit_is_listed(o, along_y(false), points, triangles, across_y[1]);
    }
}

} // verus!
