//! The outer shell: dropping the triangles that touch enclosed points, and
//! renumbering the points that are left.

use vstd::prelude::*;
use std::collections::HashSet;
use vstd::std_specs::hash::group_hash_axioms;
use crate::seqs::lemma_filter_push;
use crate::seqs::lemma_take_push;
use crate::triangle::Triplet;
use crate::tiles::point_ids;
use crate::triangle::triangles_valid;
use crate::vector::Vector3;
use crate::vector::points_in_range;

verus! {

broadcast use group_hash_axioms;

/// Whether `p` is a corner of the triangle.
pub open spec fn touches(t: Triplet, p: usize) -> bool {
    t.0 == p || t.1 == p || t.2 == p
}

/// The test "no corner of this triangle is in the set".
pub open spec fn clear_of(points: Set<usize>) -> spec_fn(Triplet) -> bool {
    |t: Triplet| !points.contains(t.0) && !points.contains(t.1) && !points.contains(t.2)
}

/// Keeps the triangles of which no corner is in the set, in their order.
pub fn drop_triangles_touching(triangles: &Vec<Triplet>, points: &HashSet<usize>) -> (r: Vec<
    Triplet,
>)
    ensures
        r@ == triangles@.filter(clear_of(points@)),
{
    let mut kept: Vec<Triplet> = Vec::new();
    let mut k: usize = 0;
    proof {
        assert(triangles@.take(0) =~= Seq::<Triplet>::empty());
        crate::seqs::lemma_filter_empty(clear_of(points@));
    }
    while k < triangles.len()
        invariant
            k <= triangles.len(),
            kept@ == triangles@.take(k as int).filter(clear_of(points@)),
        decreases triangles.len() - k,
    {
        let t: Triplet = triangles[k];
        proof {
            lemma_take_push(triangles@, k as int);
            lemma_filter_push(triangles@.take(k as int), t, clear_of(points@));
        }
        if !points.contains(&t.0) && !points.contains(&t.1) && !points.contains(&t.2) {
            kept.push(t);
        }
        k += 1;
    }
    assert(triangles@.take(k as int) =~= triangles@);
    kept
}

/// The outer surface: the triangles of which no corner is an inside point.
pub fn extract_outer(triangles: &Vec<Triplet>, inside_points: &HashSet<usize>) -> (r: Vec<Triplet>)
    ensures
        r@ == triangles@.filter(clear_of(inside_points@)),
        forall|t: Triplet| r@.contains(t) ==> triangles@.contains(t),
        triangles@.no_duplicates() ==> r@.no_duplicates(),
{
    let r = drop_triangles_touching(triangles, inside_points);
    proof {
        lemma_filter_is_part(triangles@, clear_of(inside_points@));
    }
    r
}

/// What a filter keeps is part of what it was given, and has no repetition
/// if that had none.
pub proof fn lemma_filter_is_part(triangles: Seq<Triplet>, keep: spec_fn(Triplet) -> bool)
    ensures
        forall|t: Triplet| triangles.filter(keep).contains(t) ==> triangles.contains(t),
        triangles.no_duplicates() ==> triangles.filter(keep).no_duplicates(),
{
    assert forall|t: Triplet| triangles.filter(keep).contains(t) implies triangles.contains(t) by {
        triangles.lemma_filter_contains_rev(keep, t);
    }
    if triangles.no_duplicates() {
        crate::seqs::lemma_filter_no_duplicates(triangles, keep);
    }
}

/// Whether some triangle of the list has `p` as a corner.
pub open spec fn is_used(triangles: Seq<Triplet>, p: usize) -> bool {
    exists|k: int| 0 <= k < triangles.len() && touches(#[trigger] triangles[k], p)
}

/// The test "some triangle of the list has this point as a corner".
pub open spec fn used_by(triangles: Seq<Triplet>) -> spec_fn(usize) -> bool {
    |p: usize| is_used(triangles, p)
}

/// The indices below `n` of the points that some triangle uses, ascending.
pub open spec fn used_points(triangles: Seq<Triplet>, n: nat) -> Seq<usize> {
    point_ids(n).filter(used_by(triangles))
}

/// The index of the point `p` once the unused points are gone: the number of
/// used points before it.
pub open spec fn new_index(triangles: Seq<Triplet>, p: usize) -> nat {
    used_points(triangles, p as nat).len()
}

/// The triangle with each corner renumbered.
pub open spec fn renumbered(triangles: Seq<Triplet>, t: Triplet) -> (nat, nat, nat) {
    (new_index(triangles, t.0), new_index(triangles, t.1), new_index(triangles, t.2))
}

/// One more index in the list of used points.
proof fn lemma_used_points_step(triangles: Seq<Triplet>, p: usize)
    ensures
        used_points(triangles, (p + 1) as nat) == if is_used(triangles, p) {
            used_points(triangles, p as nat).push(p)
        } else {
            used_points(triangles, p as nat)
        },
{
    assert(point_ids((p + 1) as nat) =~= point_ids(p as nat).push(p));
    lemma_filter_push(point_ids(p as nat), p, used_by(triangles));
}

/// The list of used points grows with the bound, and a used point adds one
/// to it.
proof fn lemma_used_points_grow(triangles: Seq<Triplet>, p: usize, n: usize)
    requires
        p <= n,
    ensures
        used_points(triangles, p as nat).len() <= used_points(triangles, n as nat).len(),
        p < n && is_used(triangles, p) ==> used_points(triangles, p as nat).len()
            < used_points(triangles, n as nat).len(),
    decreases n - p,
{
    if p < n {
        lemma_used_points_step(triangles, p);
        lemma_used_points_grow(triangles, (p + 1) as usize, n);
    }
}

/// Whether the new points are the points that some triangle uses, in
/// their order, and the new triangles are the triangles with each corner
/// renumbered.
pub open spec fn is_compaction(
    points: Seq<Vector3>,
    triangles: Seq<Triplet>,
    new_points: Seq<Vector3>,
    new_triangles: Seq<Triplet>,
) -> bool {
    &&& new_points.len() == used_points(triangles, points.len()).len()
    &&& forall|i: int|
        0 <= i < new_points.len() ==> new_points[i] == points[used_points(
            triangles,
            points.len(),
        )[i] as int]
    &&& new_triangles.len() == triangles.len()
    &&& forall|k: int|
        0 <= k < triangles.len() ==> {
            let t = #[trigger] new_triangles[k];
            (t.0 as nat, t.1 as nat, t.2 as nat) == renumbered(triangles, triangles[k])
        }
}

/// Filtering keeps a sequence as it is if the test holds of all of it.
pub proof fn lemma_filter_keeps_all<T>(s: Seq<T>, keep: spec_fn(T) -> bool)
    requires
        forall|i: int| 0 <= i < s.len() ==> keep(#[trigger] s[i]),
    ensures
        s.filter(keep) == s,
    decreases s.len(),
{
    reveal(Seq::filter);
    if s.len() > 0 {
        let shorter = s.drop_last();
        assert forall|i: int| 0 <= i < shorter.len() implies keep(#[trigger] shorter[i]) by {
            assert(shorter[i] == s[i]);
        }
        lemma_filter_keeps_all(shorter, keep);
        assert(shorter.push(s.last()) =~= s);
    }
}

/// Used points with the same new index are the same point.
proof fn lemma_new_index_injective(triangles: Seq<Triplet>, p: usize, q: usize)
    requires
        is_used(triangles, p),
        is_used(triangles, q),
        new_index(triangles, p) == new_index(triangles, q),
    ensures
        p == q,
{
    if p < q {
        lemma_used_points_grow(triangles, p, q);
    } else if q < p {
        lemma_used_points_grow(triangles, q, p);
    }
}

/// The used point at place `at` of the list is below the bound, is used,
/// and has `at` used points before it.
proof fn lemma_used_point_position(triangles: Seq<Triplet>, n: usize, at: int)
    requires
        0 <= at < used_points(triangles, n as nat).len(),
    ensures
        used_points(triangles, n as nat)[at] < n,
        is_used(triangles, used_points(triangles, n as nat)[at]),
        new_index(triangles, used_points(triangles, n as nat)[at]) == at,
    decreases n,
{
    if n == 0 {
        assert(point_ids(0) =~= Seq::<usize>::empty());
        crate::seqs::lemma_filter_empty(used_by(triangles));
    } else {
        let m = (n - 1) as usize;
        lemma_used_points_step(triangles, m);
        if at < used_points(triangles, m as nat).len() {
            lemma_used_point_position(triangles, m, at);
        }
    }
}

/// Removes the points that no triangle uses and renumbers the corners of
/// the triangles. The points that stay keep their order.
pub fn remove_unused_points(coordinates: &[Vector3], triangles: &Vec<Triplet>) -> (r: (
    Vec<Vector3>,
    Vec<Triplet>,
))
    requires
        triangles_valid(triangles@, coordinates@.len() as int),
    ensures
        is_compaction(coordinates@, triangles@, r.0@, r.1@),
        forall|p: usize|
            p < coordinates@.len() && is_used(triangles@, p) ==> new_index(triangles@, p)
                < r.0@.len() && r.0@[new_index(triangles@, p) as int] == coordinates@[p as int],
        r.0@.len() <= coordinates@.len(),
        triangles_valid(r.1@, r.0@.len() as int),
        forall|q: usize| q < r.0@.len() ==> is_used(r.1@, q),
        triangles@.no_duplicates() ==> r.1@.no_duplicates(),
        points_in_range(coordinates@) ==> points_in_range(r.0@),
{
    let n: usize = coordinates.len();
    let mut used: Vec<bool> = Vec::new();
    let mut p: usize = 0;
    while p < n
        invariant
            p <= n,
            used@.len() == p,
            forall|q: int| 0 <= q < p ==> !used@[q],
        decreases n - p,
    {
        used.push(false);
        p += 1;
    }
    let mut k: usize = 0;
    while k < triangles.len()
        invariant
            k <= triangles.len(),
            n == coordinates@.len(),
            used@.len() == n,
            triangles_valid(triangles@, n as int),
            forall|q: usize| q < n ==> (used@[q as int] <==> is_used(triangles@.take(k as int), q)),
        decreases triangles.len() - k,
    {
        let t: Triplet = triangles[k];
        let ghost before = used@;
        used[t.0] = true;
        used[t.1] = true;
        used[t.2] = true;
        proof {
            let shorter = triangles@.take(k as int);
            let longer = triangles@.take(k + 1);
            assert forall|q: usize| q < n implies (used@[q as int] <==> is_used(longer, q)) by {
                assert(before[q as int] <==> is_used(shorter, q));
                if is_used(shorter, q) {
                    let w = choose|w: int| 0 <= w < shorter.len() && touches(shorter[w], q);
                    assert(touches(longer[w], q));
                }
                if touches(t, q) {
                    assert(touches(longer[k as int], q));
                }
                if is_used(longer, q) {
                    let w = choose|w: int| 0 <= w < longer.len() && touches(longer[w], q);
                    if w < k {
                        assert(touches(shorter[w], q));
                    }
                }
            }
        }
        k += 1;
    }
    assert(triangles@.take(k as int) =~= triangles@);

    let mut new_points: Vec<Vector3> = Vec::new();
    let mut point_index_map: Vec<usize> = Vec::new();
    let mut j: usize = 0;
    proof {
        assert(point_ids(0) =~= Seq::<usize>::empty());
        crate::seqs::lemma_filter_empty(used_by(triangles@));
    }
    while j < n
        invariant
            j <= n,
            n == coordinates@.len(),
            used@.len() == n,
            forall|q: usize| q < n ==> (used@[q as int] <==> is_used(triangles@, q)),
            point_index_map@.len() == j,
            new_points@.len() == used_points(triangles@, j as nat).len(),
            new_points@.len() <= j,
            forall|q: usize| q < j ==> point_index_map@[q as int] == new_index(triangles@, q),
            forall|i: int|
                0 <= i < new_points@.len() ==> new_points@[i] == coordinates@[used_points(
                    triangles@,
                    j as nat,
                )[i] as int],
            forall|q: usize|
                q < j && is_used(triangles@, q) ==> new_index(triangles@, q) < new_points@.len()
                    && new_points@[new_index(triangles@, q) as int] == coordinates@[q as int],
        decreases n - j,
    {
        proof {
            lemma_used_points_step(triangles@, j);
        }
        point_index_map.push(new_points.len());
        if used[j] {
            new_points.push(coordinates[j]);
        }
        j += 1;
    }

    let mut new_triangles: Vec<Triplet> = Vec::new();
    let mut m: usize = 0;
    while m < triangles.len()
        invariant
            m <= triangles.len(),
            n == coordinates@.len(),
            triangles_valid(triangles@, n as int),
            point_index_map@.len() == n,
            new_points@.len() == used_points(triangles@, n as nat).len(),
            forall|q: usize| q < n ==> point_index_map@[q as int] == new_index(triangles@, q),
            new_triangles@.len() == m,
            forall|k: int|
                0 <= k < m ==> {
                    let t = #[trigger] new_triangles@[k];
                    &&& (t.0 as nat, t.1 as nat, t.2 as nat) == renumbered(
                        triangles@,
                        triangles@[k],
                    )
                    &&& t.0 < new_points@.len() && t.1 < new_points@.len() && t.2
                        < new_points@.len()
                },
        decreases triangles.len() - m,
    {
        let t: Triplet = triangles[m];
        proof {
            assert(touches(triangles@[m as int], t.0));
            assert(touches(triangles@[m as int], t.1));
            assert(touches(triangles@[m as int], t.2));
            lemma_used_points_grow(triangles@, t.0, n);
            lemma_used_points_grow(triangles@, t.1, n);
            lemma_used_points_grow(triangles@, t.2, n);
        }
        new_triangles.push((point_index_map[t.0], point_index_map[t.1], point_index_map[t.2]));
        m += 1;
    }
    proof {
        if points_in_range(coordinates@) {
            assert forall|i: int| 0 <= i < new_points@.len() implies (
            #[trigger] new_points@[i]).in_range() by {
                lemma_used_point_position(triangles@, n, i);
                assert(coordinates@[used_points(triangles@, n as nat)[i] as int].in_range());
            }
        }
        assert forall|q: usize| q < new_points@.len() implies is_used(new_triangles@, q) by {
            lemma_used_point_position(triangles@, n, q as int);
            let p = used_points(triangles@, n as nat)[q as int];
            let k = choose|k: int|
                0 <= k < triangles@.len() && touches(#[trigger] triangles@[k], p);
            assert(touches(new_triangles@[k], q));
        }
        if triangles@.no_duplicates() {
            assert forall|i: int, j: int|
                0 <= i < new_triangles@.len() && 0 <= j < new_triangles@.len() && i
                    != j implies new_triangles@[i] != new_triangles@[j] by {
                let (t, u) = (triangles@[i], triangles@[j]);
                assert(touches(triangles@[i], t.0) && touches(triangles@[i], t.1) && touches(
                    triangles@[i],
                    t.2,
                ));
                assert(touches(triangles@[j], u.0) && touches(triangles@[j], u.1) && touches(
                    triangles@[j],
                    u.2,
                ));
                if new_triangles@[i] == new_triangles@[j] {
                    lemma_new_index_injective(triangles@, t.0, u.0);
                    lemma_new_index_injective(triangles@, t.1, u.1);
                    lemma_new_index_injective(triangles@, t.2, u.2);
                }
            }
        }
    }
    (new_points, new_triangles)
}

} // verus!
