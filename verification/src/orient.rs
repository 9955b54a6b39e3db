//! The walk over neighboring triangles and the pass that gives them a
//! consistent winding.

use vstd::prelude::*;
use std::collections::HashSet;
use vstd::std_specs::hash::group_hash_axioms;
use crate::buckets::lemma_pair_key_injective;
use crate::buckets::pair_key;
use crate::buckets::pair_key_of;
use crate::triangle::Triplet;
use crate::topology::half_edge;
use crate::topology::neighbor_lists;
use crate::topology::reversed;
use crate::topology::side_of;
use crate::topology::triangle_neighbors;
use crate::walk::breadth_first_order;
use crate::walk::full_visit;
use crate::walk::visit_every_position;
use crate::walk::is_breadth_first;

verus! {

broadcast use group_hash_axioms;

/// The triangles at the given positions.
pub open spec fn triangles_at(triangles: Seq<Triplet>, order: Seq<usize>) -> Seq<Triplet> {
    Seq::new(order.len(), |m: int| triangles[order[m] as int])
}

/// Whether `at` is the first position of the triangle in the list.
pub open spec fn is_first_position(triangles: Seq<Triplet>, t: Triplet, at: usize) -> bool {
    &&& at < triangles.len()
    &&& triangles[at as int] == t
    &&& forall|j: int| 0 <= j < at ==> triangles[j] != t
}

/// Whether `visit` lists the triangles that can be reached from `start`
/// across shared sides, in breadth-first order. A start that is not in the
/// list is visited alone.
pub open spec fn is_visit_order(
    triangles: Seq<Triplet>,
    start: Triplet,
    visit: Seq<Triplet>,
) -> bool {
    if triangles.contains(start) {
        exists|at: usize, order: Seq<usize>|
            is_first_position(triangles, start, at) && #[trigger] is_breadth_first(
                neighbor_lists(triangles),
                at,
                order,
            ) && visit == triangles_at(triangles, order)
    } else {
        visit == seq![start]
    }
}

/// There is one visit order from a start.
pub proof fn lemma_visit_order_unique(
    triangles: Seq<Triplet>,
    start: Triplet,
    a: Seq<Triplet>,
    b: Seq<Triplet>,
)
    requires
        is_visit_order(triangles, start, a),
        is_visit_order(triangles, start, b),
    ensures
        a == b,
{
    if triangles.contains(start) {
        let (at_a, order_a) = choose|at: usize, order: Seq<usize>|
            is_first_position(triangles, start, at) && #[trigger] is_breadth_first(
                neighbor_lists(triangles),
                at,
                order,
            ) && a == triangles_at(triangles, order);
        let (at_b, order_b) = choose|at: usize, order: Seq<usize>|
            is_first_position(triangles, start, at) && #[trigger] is_breadth_first(
                neighbor_lists(triangles),
                at,
                order,
            ) && b == triangles_at(triangles, order);
        assert(at_a == at_b);
        crate::walk::lemma_breadth_first_unique(neighbor_lists(triangles), at_a, order_a, order_b);
    }
}

/// Start with `start_triangle`, then visit all its neighbors before going
/// anywhere else, then the neighbors of those, and so on.
pub fn visit_all_triangles(triangles: &Vec<Triplet>, start_triangle: Triplet) -> (r: Vec<Triplet>)
    ensures
        is_visit_order(triangles@, start_triangle, r@),
        r@.len() >= 1,
        r@[0] == start_triangle,
        forall|m: int|
            0 <= m < r@.len() ==> (#[trigger] r@[m]) == start_triangle || triangles@.contains(
                r@[m],
            ),
{
    let mut at: usize = 0;
    let mut found: bool = false;
    while at < triangles.len() && !found
        invariant
            at <= triangles.len(),
            forall|j: int| 0 <= j < at ==> triangles@[j] != start_triangle,
            found ==> at < triangles.len() && triangles@[at as int] == start_triangle,
        decreases triangles.len() - at + if found { 0int } else { 1int },
    {
        let t: Triplet = triangles[at];
        if t.0 == start_triangle.0 && t.1 == start_triangle.1 && t.2 == start_triangle.2 {
            found = true;
        } else {
            at += 1;
        }
    }
    let mut visit_list: Vec<Triplet> = Vec::new();
    if !found {
        visit_list.push(start_triangle);
        assert(visit_list@ =~= seq![start_triangle]);
        return visit_list;
    }
    let neighbors = triangle_neighbors(triangles);
    let order = breadth_first_order(&neighbors, at);
    let mut m: usize = 0;
    while m < order.len()
        invariant
            m <= order@.len(),
            visit_list@.len() == m,
            forall|i: int| 0 <= i < order@.len() ==> (#[trigger] order@[i]) < triangles@.len(),
            forall|i: int|
                0 <= i < m ==> (#[trigger] visit_list@[i]) == triangles@[order@[i] as int],
        decreases order@.len() - m,
    {
        visit_list.push(triangles[order[m]]);
        m += 1;
    }
    proof {
        assert(visit_list@ =~= triangles_at(triangles@, order@));
        assert(is_first_position(triangles@, start_triangle, at));
        assert(is_breadth_first(neighbor_lists(triangles@), at, order@));
    }
    visit_list
}

/// Visits every triangle: walk after walk in breadth-first order across
/// shared sides, each from the first triangle that no walk before it has
/// reached.
pub fn visit_every_triangle(triangles: &Vec<Triplet>) -> (r: Vec<Triplet>)
    ensures
        r@ == whole_visit(triangles@),
        forall|t: Triplet| r@.contains(t) <==> triangles@.contains(t),
{
    let n: usize = triangles.len();
    let neighbors = triangle_neighbors(triangles);
    let order = visit_every_position(&neighbors);
    let mut visit_list: Vec<Triplet> = Vec::new();
    let mut m: usize = 0;
    while m < order.len()
        invariant
            m <= order@.len(),
            visit_list@.len() == m,
            forall|i: int| 0 <= i < order@.len() ==> (#[trigger] order@[i]) < triangles@.len(),
            forall|i: int|
                0 <= i < m ==> (#[trigger] visit_list@[i]) == triangles@[order@[i] as int],
        decreases order@.len() - m,
    {
        visit_list.push(triangles[order[m]]);
        m += 1;
    }
    proof {
        assert(visit_list@ =~= triangles_at(triangles@, order@));
        assert forall|t: Triplet| visit_list@.contains(t) <==> triangles@.contains(t) by {
            if visit_list@.contains(t) {
                let w = choose|w: int| 0 <= w < visit_list@.len() && visit_list@[w] == t;
                assert(triangles@[order@[w] as int] == t);
            }
            if triangles@.contains(t) {
                let p = choose|p: int| 0 <= p < triangles@.len() && triangles@[p] == t;
                assert(p < n);
                let q: usize = p as usize;
                assert(order@.contains(q));
                let w = choose|w: int| 0 <= w < order@.len() && order@[w] == q;
                assert(visit_list@[w] == triangles@[order@[w] as int]);
            }
        }
    }
    visit_list
}

/// Whether the half-edge is a side of the triangle, in its direction.
pub open spec fn has_half_edge(t: Triplet, h: (usize, usize)) -> bool {
    half_edge(t, 0) == h || half_edge(t, 1) == h || half_edge(t, 2) == h
}

/// Whether two triangles have a side in common that both traverse in the
/// same direction.
pub open spec fn shares_half_edge(a: Triplet, b: Triplet) -> bool {
    has_half_edge(a, half_edge(b, 0)) || has_half_edge(a, half_edge(b, 1)) || has_half_edge(
        a,
        half_edge(b, 2),
    )
}

/// Whether some triangle of the list traverses the half-edge.
pub open spec fn traversed(out: Seq<Triplet>, h: (usize, usize)) -> bool {
    exists|k: int| 0 <= k < out.len() && has_half_edge(#[trigger] out[k], h)
}

/// Whether some triangle of the list traverses a side of `t` in the
/// direction in which `t` does.
pub open spec fn conflicts(out: Seq<Triplet>, t: Triplet) -> bool {
    traversed(out, half_edge(t, 0)) || traversed(out, half_edge(t, 1)) || traversed(
        out,
        half_edge(t, 2),
    )
}

/// The triangles of a visit, each kept as it is unless it traverses a side
/// in the direction of a triangle that came before it in the result. Such
/// a triangle is dropped, or else reversed; a reversed triangle that the
/// result holds already is not added twice.
pub open spec fn oriented(visit: Seq<Triplet>, drop_bad_triangles: bool) -> Seq<Triplet>
    decreases visit.len(),
{
    if visit.len() == 0 {
        Seq::empty()
    } else {
        let earlier = oriented(visit.drop_last(), drop_bad_triangles);
        let t = visit.last();
        if !conflicts(earlier, t) {
            earlier.push(t)
        } else if drop_bad_triangles || earlier.contains(reversed(t)) {
            earlier
        } else {
            earlier.push(reversed(t))
        }
    }
}

/// The visit of all triangles: walk after walk in breadth-first order
/// across shared sides, each from the first triangle that no walk before it
/// has reached.
pub open spec fn whole_visit(triangles: Seq<Triplet>) -> Seq<Triplet> {
    triangles_at(triangles, full_visit(neighbor_lists(triangles)))
}

/// Whether `out` is the result of the pass on the triangles: the visit of
/// all triangles, oriented.
pub open spec fn is_orientation(
    triangles: Seq<Triplet>,
    drop_bad_triangles: bool,
    out: Seq<Triplet>,
) -> bool {
    out == oriented(whole_visit(triangles), drop_bad_triangles)
}

/// No two triangles of the list traverse a common side in the same
/// direction.
pub open spec fn distinct_half_edges(out: Seq<Triplet>) -> bool {
    forall|i: int, j: int|
        0 <= i < j < out.len() ==> !shares_half_edge(#[trigger] out[i], #[trigger] out[j])
}

/// Whether each triangle of the visit that is reversed fits once reversed:
/// it then traverses no side in the direction of a triangle before it.
pub open spec fn flips_settle(visit: Seq<Triplet>) -> bool {
    forall|m: int|
        0 <= m < visit.len() && conflicts(oriented(visit.take(m), false), #[trigger] visit[m])
            ==> !conflicts(oriented(visit.take(m), false), reversed(visit[m]))
}

/// The half-edges of a list with one more triangle.
proof fn lemma_traversed_push(out: Seq<Triplet>, t: Triplet, h: (usize, usize))
    ensures
        traversed(out.push(t), h) <==> (traversed(out, h) || has_half_edge(t, h)),
{
    let longer = out.push(t);
    if traversed(out, h) {
        let k = choose|k: int| 0 <= k < out.len() && has_half_edge(#[trigger] out[k], h);
        assert(longer[k] == out[k]);
    }
    if has_half_edge(t, h) {
        assert(longer[out.len() as int] == t);
    }
    if traversed(longer, h) {
        let k = choose|k: int| 0 <= k < longer.len() && has_half_edge(#[trigger] longer[k], h);
        if k < out.len() {
            assert(out[k] == longer[k]);
        }
    }
}

/// The result of the pass has no triangle twice, and each of its triangles
/// is a triangle of the visit or the reverse of one.
pub proof fn lemma_oriented_is_part(visit: Seq<Triplet>, drop_bad_triangles: bool)
    ensures
        oriented(visit, drop_bad_triangles).no_duplicates(),
        forall|t: Triplet|
            oriented(visit, drop_bad_triangles).contains(t) ==> (visit.contains(t) || (
            !drop_bad_triangles && visit.contains(reversed(t)))),
    decreases visit.len(),
{
    if visit.len() > 0 {
        let shorter = visit.drop_last();
        let earlier = oriented(shorter, drop_bad_triangles);
        let last = visit.last();
        let out = oriented(visit, drop_bad_triangles);
        lemma_oriented_is_part(shorter, drop_bad_triangles);
        assert(visit[visit.len() - 1] == last);
        assert forall|t: Triplet| out.contains(t) implies (visit.contains(t) || (
        !drop_bad_triangles && visit.contains(reversed(t)))) by {
            let w = choose|w: int| 0 <= w < out.len() && out[w] == t;
            if w < earlier.len() {
                assert(earlier[w] == t);
                assert(earlier.contains(t));
                if shorter.contains(t) {
                    let v = choose|v: int| 0 <= v < shorter.len() && shorter[v] == t;
                    assert(visit[v] == t);
                } else {
                    let v = choose|v: int| 0 <= v < shorter.len() && shorter[v] == reversed(t);
                    assert(visit[v] == reversed(t));
                }
            } else {
                assert(t == last || (t == reversed(last) && !drop_bad_triangles));
                assert(reversed(reversed(last)) == last);
            }
        }
        if !conflicts(earlier, last) {
            assert forall|i: int| 0 <= i < earlier.len() implies earlier[i] != last by {
                if earlier[i] == last {
                    assert(has_half_edge(earlier[i], half_edge(last, 0)));
                }
            }
        }
    }
}

/// Where triangles are reversed and not dropped, every triangle of the
/// visit is in the result, as it is or reversed.
pub proof fn lemma_oriented_keeps_all(visit: Seq<Triplet>)
    ensures
        forall|t: Triplet|
            visit.contains(t) ==> oriented(visit, false).contains(t) || oriented(
                visit,
                false,
            ).contains(reversed(t)),
    decreases visit.len(),
{
    if visit.len() > 0 {
        let shorter = visit.drop_last();
        let earlier = oriented(shorter, false);
        let last = visit.last();
        let out = oriented(visit, false);
        lemma_oriented_keeps_all(shorter);
        assert forall|x: Triplet| earlier.contains(x) implies out.contains(x) by {
            let w = choose|w: int| 0 <= w < earlier.len() && earlier[w] == x;
            assert(out[w] == x);
        }
        assert forall|t: Triplet| visit.contains(t) implies out.contains(t) || out.contains(
            reversed(t),
        ) by {
            let v = choose|v: int| 0 <= v < visit.len() && visit[v] == t;
            if v < shorter.len() {
                assert(shorter[v] == t);
                assert(shorter.contains(t));
            } else if out.len() > earlier.len() {
                assert(out[earlier.len() as int] == t || out[earlier.len() as int] == reversed(t));
            }
        }
    }
}

/// Dropping the triangles that cannot be kept as they are leaves no two
/// triangles that traverse a common side in the same direction. So does
/// reversing them, where each fits once reversed.
pub proof fn lemma_oriented_is_consistent(visit: Seq<Triplet>, drop_bad_triangles: bool)
    requires
        drop_bad_triangles || flips_settle(visit),
    ensures
        distinct_half_edges(oriented(visit, drop_bad_triangles)),
    decreases visit.len(),
{
    if visit.len() > 0 {
        let shorter = visit.drop_last();
        let earlier = oriented(shorter, drop_bad_triangles);
        let last = visit.last();
        let out = oriented(visit, drop_bad_triangles);
        if !drop_bad_triangles {
            assert forall|m: int|
                0 <= m < shorter.len() && conflicts(
                    oriented(shorter.take(m), false),
                    #[trigger] shorter[m],
                ) implies !conflicts(oriented(shorter.take(m), false), reversed(shorter[m])) by {
                assert(shorter.take(m) =~= visit.take(m));
                assert(shorter[m] == visit[m]);
            }
            assert(visit.take(visit.len() - 1) =~= shorter);
            assert(visit[visit.len() - 1] == last);
        }
        lemma_oriented_is_consistent(shorter, drop_bad_triangles);
        if out.len() > earlier.len() {
            let added = out[earlier.len() as int];
            assert(!conflicts(earlier, added));
            assert forall|i: int, j: int| 0 <= i < j < out.len() implies !shares_half_edge(
                #[trigger] out[i],
                #[trigger] out[j],
            ) by {
                if j < earlier.len() {
                    assert(!shares_half_edge(earlier[i], earlier[j]));
                } else {
                    assert(out[i] == earlier[i]);
                    if shares_half_edge(out[i], added) {
                        assert(has_half_edge(earlier[i], half_edge(added, 0)) || has_half_edge(
                            earlier[i],
                            half_edge(added, 1),
                        ) || has_half_edge(earlier[i], half_edge(added, 2)));
                        assert(conflicts(earlier, added));
                    }
                }
            }
        }
    }
}

/// Where no two triangles traverse a common side in the same direction,
/// two triangles that meet at a side traverse it in opposite directions.
pub proof fn lemma_shared_side_is_opposed(
    out: Seq<Triplet>,
    i: int,
    j: int,
    side_i: int,
    side_j: int,
)
    requires
        distinct_half_edges(out),
        0 <= i < out.len(),
        0 <= j < out.len(),
        i != j,
        0 <= side_i < 3,
        0 <= side_j < 3,
        side_of(out[i], side_i) == side_of(out[j], side_j),
    ensures
        half_edge(out[j], side_j).0 == half_edge(out[i], side_i).1,
        half_edge(out[j], side_j).1 == half_edge(out[i], side_i).0,
        half_edge(out[j], side_j) != half_edge(out[i], side_i),
{
    if i < j {
        assert(!shares_half_edge(out[i], out[j]));
    } else {
        assert(!shares_half_edge(out[j], out[i]));
    }
}

/// Whether the list holds the triangle.
fn contains_triangle(list: &Vec<Triplet>, t: Triplet) -> (r: bool)
    ensures
        r == list@.contains(t),
{
    let mut k: usize = 0;
    while k < list.len()
        invariant
            k <= list@.len(),
            forall|j: int| 0 <= j < k ==> list@[j] != t,
        decreases list@.len() - k,
    {
        let u: Triplet = list[k];
        if u.0 == t.0 && u.1 == t.1 && u.2 == t.2 {
            return true;
        }
        k += 1;
    }
    false
}

/// The key of a half-edge in the set of those that were traversed.
pub open spec fn half_edge_key(h: (usize, usize)) -> u128 {
    pair_key_of(h.0, h.1) as u128
}

/// Records the three half-edges of a triangle that joins the result.
fn record_half_edges(
    half_edges: &mut HashSet<u128>,
    t: Triplet,
    Ghost(out): Ghost<Seq<Triplet>>,
)
    requires
        forall|h: (usize, usize)|
            old(half_edges)@.contains(half_edge_key(h)) <==> #[trigger] traversed(out, h),
    ensures
        forall|h: (usize, usize)|
            final(half_edges)@.contains(half_edge_key(h)) <==> #[trigger] traversed(out.push(t), h),
{
    half_edges.insert(pair_key(t.0, t.1));
    half_edges.insert(pair_key(t.1, t.2));
    half_edges.insert(pair_key(t.2, t.0));
    proof {
        assert forall|h: (usize, usize)|
            half_edges@.contains(half_edge_key(h)) <==> #[trigger] traversed(out.push(t), h) by {
            lemma_traversed_push(out, t, h);
            lemma_pair_key_injective(h.0, h.1, t.0, t.1);
            lemma_pair_key_injective(h.0, h.1, t.1, t.2);
            lemma_pair_key_injective(h.0, h.1, t.2, t.0);
            assert(old(half_edges)@.contains(half_edge_key(h)) <==> traversed(out, h));
        }
    }
}

/// Gives the triangles a consistent winding. The triangles are taken walk
/// after walk in breadth-first order; one that traverses a side in the
/// direction of a triangle taken before it is dropped or reversed, as
/// `drop_bad_triangles` says.
pub fn orient_triangles(triangles: &Vec<Triplet>, drop_bad_triangles: bool) -> (r: Vec<Triplet>)
    ensures
        is_orientation(triangles@, drop_bad_triangles, r@),
        r@.no_duplicates(),
        drop_bad_triangles ==> distinct_half_edges(r@),
        forall|t: Triplet|
            r@.contains(t) ==> (triangles@.contains(t) || (!drop_bad_triangles
                && triangles@.contains(reversed(t)))),
        !drop_bad_triangles ==> forall|t: Triplet|
            triangles@.contains(t) ==> r@.contains(t) || r@.contains(reversed(t)),
{
    let mut oriented_triangles: Vec<Triplet> = Vec::new();
    let visit_list = visit_every_triangle(triangles);
    let mut half_edges: HashSet<u128> = HashSet::new();
    let mut m: usize = 0;
    proof {
        assert(visit_list@.take(0) =~= Seq::<Triplet>::empty());
    }
    while m < visit_list.len()
        invariant
            m <= visit_list@.len(),
            oriented_triangles@ == oriented(visit_list@.take(m as int), drop_bad_triangles),
            forall|h: (usize, usize)|
                half_edges@.contains(half_edge_key(h)) <==> #[trigger] traversed(
                    oriented_triangles@,
                    h,
                ),
        decreases visit_list@.len() - m,
    {
        let t: Triplet = visit_list[m];
        let ghost earlier = oriented_triangles@;
        proof {
            assert(visit_list@.take(m + 1).drop_last() =~= visit_list@.take(m as int));
            assert(visit_list@.take(m + 1).last() == t);
            assert(half_edges@.contains(half_edge_key(half_edge(t, 0))) <==> traversed(
                earlier,
                half_edge(t, 0),
            ));
            assert(half_edges@.contains(half_edge_key(half_edge(t, 1))) <==> traversed(
                earlier,
                half_edge(t, 1),
            ));
            assert(half_edges@.contains(half_edge_key(half_edge(t, 2))) <==> traversed(
                earlier,
                half_edge(t, 2),
            ));
        }
        let bad: bool = half_edges.contains(&pair_key(t.0, t.1)) || half_edges.contains(
            &pair_key(t.1, t.2),
        ) || half_edges.contains(&pair_key(t.2, t.0));
        if bad {
            if !drop_bad_triangles {
                let flipped: Triplet = (t.2, t.1, t.0);
                proof {
                    assert(half_edges@.contains(half_edge_key(half_edge(flipped, 0)))
                        <==> traversed(earlier, half_edge(flipped, 0)));
                    if earlier.contains(flipped) {
                        let w = choose|w: int| 0 <= w < earlier.len() && earlier[w] == flipped;
                        assert(has_half_edge(earlier[w], half_edge(flipped, 0)));
                    }
                }
                let present: bool = half_edges.contains(&pair_key(flipped.0, flipped.1))
                    && contains_triangle(&oriented_triangles, flipped);
                if !present {
                    record_half_edges(&mut half_edges, flipped, Ghost(earlier));
                    oriented_triangles.push(flipped);
                }
            }
        } else {
            record_half_edges(&mut half_edges, t, Ghost(earlier));
            oriented_triangles.push(t);
        }
        m += 1;
    }
    proof {
        assert(visit_list@.take(m as int) =~= visit_list@);
        lemma_oriented_is_part(visit_list@, drop_bad_triangles);
        if drop_bad_triangles {
            lemma_oriented_is_consistent(visit_list@, drop_bad_triangles);
        }
        if !drop_bad_triangles {
            lemma_oriented_keeps_all(visit_list@);
        }
        assert forall|t: Triplet| oriented_triangles@.contains(t) implies (triangles@.contains(t)
            || (!drop_bad_triangles && triangles@.contains(reversed(t)))) by {
            if visit_list@.contains(t) {
                let w = choose|w: int| 0 <= w < visit_list@.len() && visit_list@[w] == t;
                assert(triangles@.contains(visit_list@[w]));
            } else {
                let w = choose|w: int| 0 <= w < visit_list@.len() && visit_list@[w] == reversed(t);
                assert(triangles@.contains(visit_list@[w]));
            }
        }
    }
    oriented_triangles
}

} // verus!
