//! The passes that drop the triangles at defective vertices.

use vstd::prelude::*;
use crate::buckets::Buckets;
use crate::components::Edge;
use crate::components::component_count;
use crate::components::number_of_components;
use crate::seqs::lemma_filter_push;
use crate::seqs::lemma_take_push;
use crate::shell::clear_of;
use crate::shell::lemma_filter_is_part;
use crate::triangle::Triplet;
use crate::topology::edge_key_of;
use crate::topology::edge_to_triangles;
use crate::topology::edge_users;
use crate::topology::ordered;
use crate::topology::ordered_pair;
use crate::topology::side_of;
use crate::buckets::pair_key;

verus! {

/// Whether the edge is a side of exactly one triangle.
pub open spec fn is_boundary(triangles: Seq<Triplet>, e: Edge) -> bool {
    edge_users(triangles, e).len() == 1
}

/// The list with the other end of the edge added for each end that is `v`,
/// if the edge is a boundary edge.
pub open spec fn with_boundary_side(
    list: Seq<usize>,
    triangles: Seq<Triplet>,
    e: Edge,
    v: usize,
) -> Seq<usize> {
    if is_boundary(triangles, e) {
        let first = if e.0 == v {
            list.push(e.1)
        } else {
            list
        };
        if e.1 == v {
            first.push(e.0)
        } else {
            first
        }
    } else {
        list
    }
}

/// The other ends of the boundary edges that end at `v`, over the sides of
/// the first `m` triangles. Each boundary edge is a side once, so it is
/// listed once for each of its ends.
pub open spec fn boundary_neighbors(triangles: Seq<Triplet>, m: nat, v: usize) -> Seq<usize>
    decreases m,
{
    if m == 0 {
        Seq::empty()
    } else {
        let t = triangles[m - 1];
        let earlier = boundary_neighbors(triangles, (m - 1) as nat, v);
        with_boundary_side(
            with_boundary_side(
                with_boundary_side(earlier, triangles, side_of(t, 0), v),
                triangles,
                side_of(t, 1),
                v,
            ),
            triangles,
            side_of(t, 2),
            v,
        )
    }
}

/// Whether more than two boundary edge ends meet at `v`.
pub open spec fn is_double_boundary(triangles: Seq<Triplet>, v: usize) -> bool {
    boundary_neighbors(triangles, triangles.len(), v).len() > 2
}

/// The vertices at which more than two boundary edge ends meet.
pub open spec fn double_boundary_vertices(triangles: Seq<Triplet>) -> Set<usize> {
    Set::new(|v: usize| is_double_boundary(triangles, v))
}

/// Adds the ends of a side to the lists of boundary neighbors, if the side
/// is a boundary edge.
fn add_boundary_side(
    ends: &mut Buckets<usize>,
    table: &Buckets<usize>,
    triangles: &Vec<Triplet>,
    e: Edge,
)
    requires
        forall|e: Edge| #[trigger] table.bucket(edge_key_of(e)) == edge_users(triangles@, e),
    ensures
        forall|v: usize| #[trigger]
            final(ends).bucket(v as int) == with_boundary_side(
                old(ends).bucket(v as int),
                triangles@,
                e,
                v,
            ),
{
    assert(table.bucket(edge_key_of(e)) == edge_users(triangles@, e));
    let boundary: bool = match table.get(pair_key(e.0, e.1)) {
        Some(users) => users.len() == 1,
        None => false,
    };
    if boundary {
        ends.add(e.0 as u128, e.1);
        let ghost middle = *ends;
        ends.add(e.1 as u128, e.0);
        proof {
            assert forall|v: usize| #[trigger]
                ends.bucket(v as int) == with_boundary_side(
                    old(ends).bucket(v as int),
                    triangles@,
                    e,
                    v,
                ) by {
                let _ = middle.bucket(v as int);
            }
        }
    }
}

/// Drops every triangle with a corner at which more than two boundary edge
/// ends meet. A boundary edge is a side of exactly one triangle.
pub fn remove_double_boundary_indices(triangles: &Vec<Triplet>) -> (r: Vec<Triplet>)
    ensures
        r@ == triangles@.filter(clear_of(double_boundary_vertices(triangles@))),
        forall|t: Triplet| r@.contains(t) ==> triangles@.contains(t),
        triangles@.no_duplicates() ==> r@.no_duplicates(),
{
    let table = edge_to_triangles(triangles);
    let mut ends: Buckets<usize> = Buckets::new();
    let mut k: usize = 0;
    while k < triangles.len()
        invariant
            k <= triangles.len(),
            forall|e: Edge| #[trigger] table.bucket(edge_key_of(e)) == edge_users(triangles@, e),
            forall|v: usize| #[trigger]
                ends.bucket(v as int) == boundary_neighbors(triangles@, k as nat, v),
        decreases triangles.len() - k,
    {
        let t: Triplet = triangles[k];
        let ghost before = ends;
        add_boundary_side(&mut ends, &table, triangles, ordered(t.0, t.1));
        let ghost after0 = ends;
        add_boundary_side(&mut ends, &table, triangles, ordered(t.1, t.2));
        let ghost after1 = ends;
        add_boundary_side(&mut ends, &table, triangles, ordered(t.2, t.0));
        proof {
            assert forall|v: usize| #[trigger]
                ends.bucket(v as int) == boundary_neighbors(triangles@, (k + 1) as nat, v) by {
                let _ = before.bucket(v as int);
                let _ = after0.bucket(v as int);
                let _ = after1.bucket(v as int);
            }
        }
        k += 1;
    }
    let ghost bad = double_boundary_vertices(triangles@);
    let mut new_triangles: Vec<Triplet> = Vec::new();
    let mut m: usize = 0;
    proof {
        assert(triangles@.take(0) =~= Seq::<Triplet>::empty());
        crate::seqs::lemma_filter_empty(clear_of(bad));
    }
    while m < triangles.len()
        invariant
            m <= triangles.len(),
            bad == double_boundary_vertices(triangles@),
            forall|v: usize| #[trigger]
                ends.bucket(v as int) == boundary_neighbors(triangles@, triangles@.len(), v),
            new_triangles@ == triangles@.take(m as int).filter(clear_of(bad)),
        decreases triangles.len() - m,
    {
        let t: Triplet = triangles[m];
        proof {
            lemma_take_push(triangles@, m as int);
            lemma_filter_push(triangles@.take(m as int), t, clear_of(bad));
        }
        if !meets_more_than_two(&ends, t.0, Ghost(triangles@)) && !meets_more_than_two(
            &ends,
            t.1,
            Ghost(triangles@),
        ) && !meets_more_than_two(&ends, t.2, Ghost(triangles@)) {
            new_triangles.push(t);
        }
        m += 1;
    }
    proof {
        assert(triangles@.take(m as int) =~= triangles@);
        lemma_filter_is_part(triangles@, clear_of(bad));
    }
    new_triangles
}

/// Whether more than two boundary edge ends meet at the vertex.
fn meets_more_than_two(
    ends: &Buckets<usize>,
    v: usize,
    Ghost(triangles): Ghost<Seq<Triplet>>,
) -> (r: bool)
    requires
        forall|v: usize| #[trigger]
            ends.bucket(v as int) == boundary_neighbors(triangles, triangles.len(), v),
    ensures
        r == double_boundary_vertices(triangles).contains(v),
{
    assert(ends.bucket(v as int) == boundary_neighbors(triangles, triangles.len(), v));
    match ends.get(v as u128) {
        Some(others) => others.len() > 2,
        None => false,
    }
}

/// The list with the edge between `a` and `b` added if `corner` is `v`.
pub open spec fn with_opposite(list: Seq<Edge>, corner: usize, v: usize, a: usize, b: usize) -> Seq<
    Edge,
> {
    if corner == v {
        list.push(ordered_pair(a, b))
    } else {
        list
    }
}

/// The edges opposite to `v`: for each triangle that has `v` as a corner,
/// the side between its other two corners.
pub open spec fn opposite_edges(triangles: Seq<Triplet>, v: usize) -> Seq<Edge>
    decreases triangles.len(),
{
    if triangles.len() == 0 {
        Seq::empty()
    } else {
        let t = triangles.last();
        let earlier = opposite_edges(triangles.drop_last(), v);
        with_opposite(
            with_opposite(with_opposite(earlier, t.0, v, t.1, t.2), t.1, v, t.2, t.0),
            t.2,
            v,
            t.0,
            t.1,
        )
    }
}

/// Whether the edges opposite to `v` form more than one connected
/// component: the triangles around `v` are then no single fan.
pub open spec fn is_hourglass(triangles: Seq<Triplet>, v: usize) -> bool {
    component_count(opposite_edges(triangles, v)) > 1
}

/// The vertices whose opposite edges form more than one component.
pub open spec fn hourglass_vertices(triangles: Seq<Triplet>) -> Set<usize> {
    Set::new(|v: usize| is_hourglass(triangles, v))
}

/// Whether the edges opposite to the vertex form more than one component.
fn is_pinched(
    opposite: &Buckets<Edge>,
    v: usize,
    Ghost(triangles): Ghost<Seq<Triplet>>,
) -> (r: bool)
    requires
        forall|v: usize| #[trigger] opposite.bucket(v as int) == opposite_edges(triangles, v),
    ensures
        r == hourglass_vertices(triangles).contains(v),
{
    assert(opposite.bucket(v as int) == opposite_edges(triangles, v));
    match opposite.get(v as u128) {
        Some(edges) => number_of_components(edges) > 1,
        None => false,
    }
}

/// Drops every triangle with a corner whose opposite edges form more than
/// one connected component.
pub fn remove_hourglass_indices(triangles: &Vec<Triplet>) -> (r: Vec<Triplet>)
    ensures
        r@ == triangles@.filter(clear_of(hourglass_vertices(triangles@))),
        forall|t: Triplet| r@.contains(t) ==> triangles@.contains(t),
        triangles@.no_duplicates() ==> r@.no_duplicates(),
{
    let mut opposite: Buckets<Edge> = Buckets::new();
    let mut k: usize = 0;
    assert(triangles@.take(0) =~= Seq::<Triplet>::empty());
    while k < triangles.len()
        invariant
            k <= triangles.len(),
            forall|v: usize| #[trigger]
                opposite.bucket(v as int) == opposite_edges(triangles@.take(k as int), v),
        decreases triangles.len() - k,
    {
        let t: Triplet = triangles[k];
        let ghost before = opposite;
        opposite.add(t.0 as u128, ordered(t.1, t.2));
        let ghost after0 = opposite;
        opposite.add(t.1 as u128, ordered(t.2, t.0));
        let ghost after1 = opposite;
        opposite.add(t.2 as u128, ordered(t.0, t.1));
        proof {
            let longer = triangles@.take(k + 1);
            assert(longer.drop_last() =~= triangles@.take(k as int));
            assert(longer.last() == t);
            assert forall|v: usize| #[trigger]
                opposite.bucket(v as int) == opposite_edges(longer, v) by {
                let _ = before.bucket(v as int);
                let _ = after0.bucket(v as int);
                let _ = after1.bucket(v as int);
            }
        }
        k += 1;
    }
    assert(triangles@.take(k as int) =~= triangles@);
    let ghost bad = hourglass_vertices(triangles@);
    let mut new_triangles: Vec<Triplet> = Vec::new();
    let mut m: usize = 0;
    proof {
        assert(triangles@.take(0) =~= Seq::<Triplet>::empty());
        crate::seqs::lemma_filter_empty(clear_of(bad));
    }
    while m < triangles.len()
        invariant
            m <= triangles.len(),
            bad == hourglass_vertices(triangles@),
            forall|v: usize| #[trigger] opposite.bucket(v as int) == opposite_edges(triangles@, v),
            new_triangles@ == triangles@.take(m as int).filter(clear_of(bad)),
        decreases triangles.len() - m,
    {
        let t: Triplet = triangles[m];
        proof {
            lemma_take_push(triangles@, m as int);
            lemma_filter_push(triangles@.take(m as int), t, clear_of(bad));
        }
        if !is_pinched(&opposite, t.0, Ghost(triangles@)) && !is_pinched(
            &opposite,
            t.1,
            Ghost(triangles@),
        ) && !is_pinched(&opposite, t.2, Ghost(triangles@)) {
            new_triangles.push(t);
        }
        m += 1;
    }
    proof {
        assert(triangles@.take(m as int) =~= triangles@);
        lemma_filter_is_part(triangles@, clear_of(bad));
    }
    new_triangles
}

} // verus!
