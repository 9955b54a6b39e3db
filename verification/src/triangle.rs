//! Triangles, by their corner points and by the indices of their corners.

use vstd::prelude::*;
use crate::vector::Vector3;

verus! {

/// Three corner points.
#[derive(Clone, Copy, Debug, PartialEq, Eq, Structural)]
pub struct Triangle {
    pub vertex1: Vector3,
    pub vertex2: Vector3,
    pub vertex3: Vector3,
}

impl Triangle {
    /// All three corners are valid points.
    pub open spec fn in_range(&self) -> bool {
        self.vertex1.in_range() && self.vertex2.in_range() && self.vertex3.in_range()
    }
}

/// A triangle as three indices into a point list, in winding order.
pub type Triplet = (usize, usize, usize);

/// Every index of every triangle is an index of a list of `n` points.
pub open spec fn triangles_valid(triangles: Seq<Triplet>, n: int) -> bool {
    forall|k: int|
        0 <= k < triangles.len() ==> {
            let t = #[trigger] triangles[k];
            t.0 < n && t.1 < n && t.2 < n
        }
}

/// What is kept of valid triangles is valid.
pub proof fn lemma_filter_keeps_valid(
    triangles: Seq<Triplet>,
    keep: spec_fn(Triplet) -> bool,
    n: int,
)
    requires
        triangles_valid(triangles, n),
    ensures
        triangles_valid(triangles.filter(keep), n),
{
    let kept = triangles.filter(keep);
    assert forall|k: int| 0 <= k < kept.len() implies {
        let t = #[trigger] kept[k];
        t.0 < n && t.1 < n && t.2 < n
    } by {
        assert(kept.contains(kept[k]));
        triangles.lemma_filter_contains_rev(keep, kept[k]);
        let w = choose|w: int| 0 <= w < triangles.len() && triangles[w] == kept[k];
        let _ = triangles[w];
    }
}

/// Decides `triangles_valid`.
pub fn all_triangles_valid(triangles: &Vec<Triplet>, n: usize) -> (r: bool)
    ensures
        r == triangles_valid(triangles@, n as int),
{
    let mut k: usize = 0;
    while k < triangles.len()
        invariant
            k <= triangles.len(),
            triangles_valid(triangles@.take(k as int), n as int),
        decreases triangles.len() - k,
    {
        let t: Triplet = triangles[k];
        if t.0 >= n || t.1 >= n || t.2 >= n {
            return false;
        }
        assert forall|j: int| 0 <= j < k + 1 implies {
            let u = #[trigger] triangles@.take(k + 1)[j];
            u.0 < n && u.1 < n && u.2 < n
        } by {
            if j < k {
                assert(triangles@.take(k as int)[j] == triangles@[j]);
            }
        }
        k += 1;
    }
    assert(triangles@.take(k as int) =~= triangles@);
    true
}

} // verus!
