//! Three-dimensional vectors with exact integer components.

use vstd::prelude::*;

verus! {

/// Number of fixed-point units in one unit of length.
pub const SCALE: i128 = 10_000_000;

/// Largest magnitude of a coordinate of a point or of a ray direction, in
/// fixed-point units. Within it every product of the intersection test fits
/// in 128 bits.
pub const COORDINATE_LIMIT: i128 = 0x100_0000_0000;

/// A vector over the mathematical integers.
pub struct MathVector {
    pub x: int,
    pub y: int,
    pub z: int,
}

/// A point or a direction, each component in fixed-point units.
#[derive(Clone, Copy, Debug, PartialEq, Eq, Structural)]
pub struct Vector3 {
    pub x: i128,
    pub y: i128,
    pub z: i128,
}

impl View for Vector3 {
    type V = MathVector;

    open spec fn view(&self) -> MathVector {
        MathVector { x: self.x as int, y: self.y as int, z: self.z as int }
    }
}

/// Whether `v` can be held in a component of a `Vector3`.
pub open spec fn fits(v: int) -> bool {
    i128::MIN <= v <= i128::MAX
}

impl MathVector {
    /// Every component has magnitude at most `bound`.
    pub open spec fn within(self, bound: int) -> bool {
        &&& -bound <= self.x <= bound
        &&& -bound <= self.y <= bound
        &&& -bound <= self.z <= bound
    }

    /// Every component can be held in a `Vector3`.
    pub open spec fn representable(self) -> bool {
        fits(self.x) && fits(self.y) && fits(self.z)
    }
}

impl Vector3 {
    /// The vector is a valid point or direction: no component exceeds
    /// `COORDINATE_LIMIT` in magnitude.
    pub open spec fn in_range(&self) -> bool {
        self@.within(COORDINATE_LIMIT as int)
    }

    /// Decides `in_range`.
    pub fn is_in_range(&self) -> (r: bool)
        ensures
            r == self.in_range(),
    {
        -COORDINATE_LIMIT <= self.x && self.x <= COORDINATE_LIMIT && -COORDINATE_LIMIT <= self.y
            && self.y <= COORDINATE_LIMIT && -COORDINATE_LIMIT <= self.z && self.z
            <= COORDINATE_LIMIT
    }
}

/// All points of a list are valid.
pub open spec fn points_in_range(points: Seq<Vector3>) -> bool {
    forall|i: int| 0 <= i < points.len() ==> (#[trigger] points[i]).in_range()
}

/// Decides `points_in_range`.
pub fn all_points_in_range(points: &[Vector3]) -> (r: bool)
    ensures
        r == points_in_range(points@),
{
    let mut i: usize = 0;
    while i < points.len()
        invariant
            i <= points.len(),
            forall|k: int| 0 <= k < i ==> (#[trigger] points@[k]).in_range(),
        decreases points.len() - i,
    {
        if !points[i].is_in_range() {
            return false;
        }
        i += 1;
    }
    true
}

/// The smallest of three.
pub open spec fn min3(a: int, b: int, c: int) -> int {
    if a <= b && a <= c {
        a
    } else if b <= c {
        b
    } else {
        c
    }
}

/// The largest of three.
pub open spec fn max3(a: int, b: int, c: int) -> int {
    if a >= b && a >= c {
        a
    } else if b >= c {
        b
    } else {
        c
    }
}

/// Componentwise difference.
pub open spec fn minus(v1: MathVector, v2: MathVector) -> MathVector {
    MathVector { x: v1.x - v2.x, y: v1.y - v2.y, z: v1.z - v2.z }
}

/// Cross product.
pub open spec fn cross(v1: MathVector, v2: MathVector) -> MathVector {
    MathVector {
        x: v1.y * v2.z - v1.z * v2.y,
        y: v1.z * v2.x - v1.x * v2.z,
        z: v1.x * v2.y - v1.y * v2.x,
    }
}

/// Dot product.
pub open spec fn dot(v1: MathVector, v2: MathVector) -> int {
    v1.x * v2.x + v1.y * v2.y + v1.z * v2.z
}

/// Every product and every difference of the cross product fits.
pub open spec fn cross_fits(v1: MathVector, v2: MathVector) -> bool {
    &&& fits(v1.y * v2.z) && fits(v1.z * v2.y) && fits(v1.y * v2.z - v1.z * v2.y)
    &&& fits(v1.z * v2.x) && fits(v1.x * v2.z) && fits(v1.z * v2.x - v1.x * v2.z)
    &&& fits(v1.x * v2.y) && fits(v1.y * v2.x) && fits(v1.x * v2.y - v1.y * v2.x)
}

/// Every product and every partial sum of the dot product fits.
pub open spec fn dot_fits(v1: MathVector, v2: MathVector) -> bool {
    &&& fits(v1.x * v2.x) && fits(v1.y * v2.y) && fits(v1.z * v2.z)
    &&& fits(v1.x * v2.x + v1.y * v2.y)
    &&& fits(v1.x * v2.x + v1.y * v2.y + v1.z * v2.z)
}

/// The cross product of two vectors.
pub fn vec_cross_vec(v1: &Vector3, v2: &Vector3) -> (r: Vector3)
    requires
        cross_fits(v1@, v2@),
    ensures
        r@ == cross(v1@, v2@),
{
    Vector3 {
        x: v1.y * v2.z - v1.z * v2.y,
        y: v1.z * v2.x - v1.x * v2.z,
        z: v1.x * v2.y - v1.y * v2.x,
    }
}

/// The difference of two vectors.
pub fn vec_minus_vec(v1: &Vector3, v2: &Vector3) -> (r: Vector3)
    requires
        minus(v1@, v2@).representable(),
    ensures
        r@ == minus(v1@, v2@),
{
    Vector3 { x: v1.x - v2.x, y: v1.y - v2.y, z: v1.z - v2.z }
}

/// The dot product of two vectors.
pub fn vec_dot_vec(v1: &Vector3, v2: &Vector3) -> (r: i128)
    requires
        dot_fits(v1@, v2@),
    ensures
        r == dot(v1@, v2@),
{
    v1.x * v2.x + v1.y * v2.y + v1.z * v2.z
}

/// A cross product of bounded vectors is bounded, and can be computed
/// within the bound.
pub proof fn lemma_cross_within(v1: MathVector, v2: MathVector, b1: int, b2: int)
    requires
        v1.within(b1),
        v2.within(b2),
    ensures
        cross(v1, v2).within(2 * (b1 * b2)),
        2 * (b1 * b2) <= i128::MAX ==> cross_fits(v1, v2),
{
    lemma_product_bound(v1.y, v2.z, b1, b2);
    lemma_product_bound(v1.z, v2.y, b1, b2);
    lemma_product_bound(v1.z, v2.x, b1, b2);
    lemma_product_bound(v1.x, v2.z, b1, b2);
    lemma_product_bound(v1.x, v2.y, b1, b2);
    lemma_product_bound(v1.y, v2.x, b1, b2);
}

/// A dot product of bounded vectors is bounded, and can be computed within
/// the bound.
pub proof fn lemma_dot_within(v1: MathVector, v2: MathVector, b1: int, b2: int)
    requires
        v1.within(b1),
        v2.within(b2),
    ensures
        -(3 * (b1 * b2)) <= dot(v1, v2) <= 3 * (b1 * b2),
        3 * (b1 * b2) <= i128::MAX ==> dot_fits(v1, v2),
{
    lemma_product_bound(v1.x, v2.x, b1, b2);
    lemma_product_bound(v1.y, v2.y, b1, b2);
    lemma_product_bound(v1.z, v2.z, b1, b2);
}

/// The product of two bounded integers is bounded by the product of the
/// bounds.
pub proof fn lemma_product_bound(x: int, y: int, bx: int, by: int)
    requires
        -bx <= x <= bx,
        -by <= y <= by,
    ensures
        -(bx * by) <= x * y <= bx * by,
{
    assert(-(bx * by) <= x * y <= bx * by) by (nonlinear_arith)
        requires
            -bx <= x <= bx,
            -by <= y <= by,
    ;
}

} // verus!
