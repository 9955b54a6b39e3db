//! Sides of triangles and the triangles that meet at them.

use vstd::prelude::*;
use crate::buckets::Buckets;
use crate::buckets::lemma_pair_key_injective;
use crate::buckets::pair_key;
use crate::buckets::pair_key_of;
use crate::components::Edge;
use crate::seqs::first_occurrences;
use crate::seqs::lemma_first_occurrences_distinct;
use crate::seqs::lemma_first_occurrences_values;
use crate::triangle::Triplet;

verus! {

/// The pair with its smaller index first.
pub open spec fn ordered_pair(a: usize, b: usize) -> Edge {
    if a < b {
        (a, b)
    } else {
        (b, a)
    }
}

/// The pair with its smaller index first: the key of the edge between two
/// points, whichever way it is traversed.
pub fn ordered(a: usize, b: usize) -> (r: (usize, usize))
    ensures
        r == ordered_pair(a, b),
{
    if a < b {
        (a, b)
    } else {
        (b, a)
    }
}

/// A side of a triangle with its direction: side 0 runs from the first
/// corner to the second, side 1 from the second to the third, and any other
/// from the third back to the first.
pub open spec fn half_edge(t: Triplet, side: int) -> (usize, usize) {
    if side == 0 {
        (t.0, t.1)
    } else if side == 1 {
        (t.1, t.2)
    } else {
        (t.2, t.0)
    }
}

/// A side of a triangle without its direction.
pub open spec fn side_of(t: Triplet, side: int) -> Edge {
    ordered_pair(half_edge(t, side).0, half_edge(t, side).1)
}

/// The triangle with the opposite winding.
pub open spec fn reversed(t: Triplet) -> Triplet {
    (t.2, t.1, t.0)
}

/// The list with `k` added if the edge is the given side of the triangle.
pub open spec fn with_user(users: Seq<usize>, t: Triplet, side: int, e: Edge, k: usize) -> Seq<
    usize,
> {
    if side_of(t, side) == e {
        users.push(k)
    } else {
        users
    }
}

/// The positions of the triangles that have the edge as a side, ascending,
/// a triangle once for each of its sides that is the edge.
pub open spec fn edge_users(triangles: Seq<Triplet>, e: Edge) -> Seq<usize>
    decreases triangles.len(),
{
    if triangles.len() == 0 {
        Seq::empty()
    } else {
        let k = (triangles.len() - 1) as usize;
        let t = triangles.last();
        let earlier = edge_users(triangles.drop_last(), e);
        with_user(with_user(with_user(earlier, t, 0, e, k), t, 1, e, k), t, 2, e, k)
    }
}

/// The users of an edge are positions in the list.
pub proof fn lemma_edge_users_valid(triangles: Seq<Triplet>, e: Edge)
    ensures
        forall|i: int|
            0 <= i < edge_users(triangles, e).len() ==> (#[trigger] edge_users(triangles, e)[i])
                < triangles.len(),
    decreases triangles.len(),
{
    if triangles.len() > 0 {
        lemma_edge_users_valid(triangles.drop_last(), e);
        let k = (triangles.len() - 1) as usize;
        let t = triangles.last();
        let earlier = edge_users(triangles.drop_last(), e);
        let u0 = with_user(earlier, t, 0, e, k);
        let u1 = with_user(u0, t, 1, e, k);
        let u2 = with_user(u1, t, 2, e, k);
        assert forall|i: int| 0 <= i < u2.len() implies (#[trigger] u2[i]) < triangles.len() by {
            if i < earlier.len() {
                assert(u2[i] == earlier[i]);
            } else {
                assert(u2[i] == k);
            }
        }
    }
}

/// The test "this position is not `i`".
pub open spec fn other_than(i: int) -> spec_fn(usize) -> bool {
    |u: usize| u != i
}

/// The triangles across a side of the triangle at position `i`: every other
/// triangle that has the side, by ascending position.
pub open spec fn across(triangles: Seq<Triplet>, i: int, side: int) -> Seq<usize> {
    edge_users(triangles, side_of(triangles[i], side)).filter(other_than(i))
}

/// The neighbors of the triangle at position `i`: the triangles across its
/// three sides, in the order of the sides.
pub open spec fn neighbors_of(triangles: Seq<Triplet>, i: int) -> Seq<usize> {
    across(triangles, i, 0) + across(triangles, i, 1) + across(triangles, i, 2)
}

/// The neighbor lists of all triangles.
pub open spec fn neighbor_lists(triangles: Seq<Triplet>) -> Seq<Seq<usize>> {
    Seq::new(triangles.len(), |i: int| neighbors_of(triangles, i))
}

/// The lists that a vector of vectors holds.
pub open spec fn lists_of(lists: Seq<Vec<usize>>) -> Seq<Seq<usize>> {
    Seq::new(lists.len(), |i: int| lists[i]@)
}

/// Every entry of every list is a position in the lists.
pub open spec fn lists_valid(lists: Seq<Seq<usize>>) -> bool {
    forall|i: int, j: int|
        0 <= i < lists.len() && 0 <= j < lists[i].len() ==> (#[trigger] lists[i][j]) < lists.len()
}

/// The key under which the users of an edge are kept.
pub open spec fn edge_key_of(e: Edge) -> int {
    pair_key_of(e.0, e.1)
}

/// For each edge the positions of the triangles that have it as a side.
pub fn edge_to_triangles(triangles: &Vec<Triplet>) -> (r: Buckets<usize>)
    ensures
        forall|e: Edge| #[trigger] r.bucket(edge_key_of(e)) == edge_users(triangles@, e),
{
    let mut table: Buckets<usize> = Buckets::new();
    let mut k: usize = 0;
    assert(triangles@.take(0) =~= Seq::<Triplet>::empty());
    while k < triangles.len()
        invariant
            k <= triangles.len(),
            forall|e: Edge| #[trigger]
                table.bucket(edge_key_of(e)) == edge_users(triangles@.take(k as int), e),
        decreases triangles.len() - k,
    {
        let t: Triplet = triangles[k];
        let s0: Edge = ordered(t.0, t.1);
        let s1: Edge = ordered(t.1, t.2);
        let s2: Edge = ordered(t.2, t.0);
        let ghost before = table;
        table.add(pair_key(s0.0, s0.1), k);
        let ghost after0 = table;
        table.add(pair_key(s1.0, s1.1), k);
        let ghost after1 = table;
        table.add(pair_key(s2.0, s2.1), k);
        proof {
            let longer = triangles@.take(k + 1);
            assert(longer.drop_last() =~= triangles@.take(k as int));
            assert(longer.last() == t);
            assert forall|e: Edge| #[trigger]
                table.bucket(edge_key_of(e)) == edge_users(longer, e) by {
                lemma_pair_key_injective(e.0, e.1, s0.0, s0.1);
                lemma_pair_key_injective(e.0, e.1, s1.0, s1.1);
                lemma_pair_key_injective(e.0, e.1, s2.0, s2.1);
                let _ = before.bucket(edge_key_of(e));
                let _ = after0.bucket(edge_key_of(e));
                let _ = after1.bucket(edge_key_of(e));
            }
        }
        k += 1;
    }
    assert(triangles@.take(k as int) =~= triangles@);
    table
}

/// For each triangle the positions of its neighbors: the triangles that
/// share a side with it.
pub fn triangle_neighbors(triangles: &Vec<Triplet>) -> (r: Vec<Vec<usize>>)
    ensures
        r@.len() == triangles@.len(),
        lists_of(r@) == neighbor_lists(triangles@),
        lists_valid(neighbor_lists(triangles@)),
{
    let table = edge_to_triangles(triangles);
    let mut neighbors: Vec<Vec<usize>> = Vec::new();
    let mut i: usize = 0;
    while i < triangles.len()
        invariant
            i <= triangles.len(),
            neighbors@.len() == i,
            forall|e: Edge| #[trigger] table.bucket(edge_key_of(e)) == edge_users(triangles@, e),
            forall|j: int|
                0 <= j < i ==> (#[trigger] neighbors@[j])@ == neighbors_of(triangles@, j),
        decreases triangles.len() - i,
    {
        let t: Triplet = triangles[i];
        let mut list: Vec<usize> = Vec::new();
        let s0: Edge = ordered(t.0, t.1);
        let s1: Edge = ordered(t.1, t.2);
        let s2: Edge = ordered(t.2, t.0);
        add_across(&table, triangles, i, 0, s0, &mut list);
        add_across(&table, triangles, i, 1, s1, &mut list);
        add_across(&table, triangles, i, 2, s2, &mut list);
        assert(list@ =~= neighbors_of(triangles@, i as int));
        neighbors.push(list);
        i += 1;
    }
    proof {
        assert(lists_of(neighbors@) =~= neighbor_lists(triangles@));
        assert forall|i: int, j: int|
            0 <= i < neighbor_lists(triangles@).len() && 0 <= j < neighbor_lists(
                triangles@,
            )[i].len() implies (#[trigger] neighbor_lists(triangles@)[i][j]) < neighbor_lists(
            triangles@,
        ).len() by {
            lemma_across_valid(triangles@, i, 0);
            lemma_across_valid(triangles@, i, 1);
            lemma_across_valid(triangles@, i, 2);
        }
    }
    neighbors
}

/// The triangles across a side are positions in the list.
proof fn lemma_across_valid(triangles: Seq<Triplet>, i: int, side: int)
    ensures
        forall|j: int|
            0 <= j < across(triangles, i, side).len() ==> (#[trigger] across(
                triangles,
                i,
                side,
            )[j]) < triangles.len(),
{
    let users = edge_users(triangles, side_of(triangles[i], side));
    let others = across(triangles, i, side);
    lemma_edge_users_valid(triangles, side_of(triangles[i], side));
    assert forall|j: int| 0 <= j < others.len() implies (#[trigger] others[j])
        < triangles.len() by {
        assert(others.contains(others[j]));
        users.lemma_filter_contains_rev(other_than(i), others[j]);
        let w = choose|w: int| 0 <= w < users.len() && users[w] == others[j];
        assert(users[w] < triangles.len());
    }
}

/// Adds the triangles across one side to a neighbor list.
fn add_across(
    table: &Buckets<usize>,
    triangles: &Vec<Triplet>,
    i: usize,
    side: usize,
    e: Edge,
    list: &mut Vec<usize>,
)
    requires
        i < triangles@.len(),
        e == side_of(triangles@[i as int], side as int),
        forall|e: Edge| #[trigger] table.bucket(edge_key_of(e)) == edge_users(triangles@, e),
    ensures
        final(list)@ == old(list)@ + across(triangles@, i as int, side as int),
{
    let ghost users = edge_users(triangles@, e);
    let ghost keep = other_than(i as int);
    assert(table.bucket(edge_key_of(e)) == users);
    proof {
        reveal(Seq::filter);
        assert(users.take(0) =~= Seq::<usize>::empty());
        assert(list@ =~= old(list)@ + users.take(0).filter(keep));
    }
    match table.get(pair_key(e.0, e.1)) {
        Some(found) => {
            let mut j: usize = 0;
            while j < found.len()
                invariant
                    j <= found@.len(),
                    found@ == users,
                    keep == other_than(i as int),
                    list@ == old(list)@ + users.take(j as int).filter(keep),
                decreases found@.len() - j,
            {
                let user: usize = found[j];
                proof {
                    crate::seqs::lemma_take_push(users, j as int);
                    crate::seqs::lemma_filter_push(users.take(j as int), user, keep);
                }
                if user != i {
                    list.push(user);
                }
                assert(list@ =~= old(list)@ + users.take(j + 1).filter(keep));
                j += 1;
            }
            assert(users.take(j as int) =~= users);
        },
        None => {
            assert(users.take(0) =~= users);
        },
    }
}

/// The triangles without the later copies of each: a list that holds each
/// triangle once stands for a set of triangles.
pub fn distinct_triangles(triangles: &Vec<Triplet>) -> (r: Vec<Triplet>)
    ensures
        r@ == first_occurrences(triangles@),
        r@.no_duplicates(),
        forall|t: Triplet| r@.contains(t) <==> triangles@.contains(t),
{
    let mut kept: Vec<Triplet> = Vec::new();
    let mut thirds: Buckets<usize> = Buckets::new();
    let mut k: usize = 0;
    assert(triangles@.take(0) =~= Seq::<Triplet>::empty());
    while k < triangles.len()
        invariant
            k <= triangles@.len(),
            kept@ == first_occurrences(triangles@.take(k as int)),
            forall|a: usize, b: usize, c: usize|
                #![trigger thirds.bucket(pair_key_of(a, b)).contains(c)]
                thirds.bucket(pair_key_of(a, b)).contains(c) <==> kept@.contains((a, b, c)),
        decreases triangles@.len() - k,
    {
        let t: Triplet = triangles[k];
        let key: u128 = pair_key(t.0, t.1);
        let present: bool = match thirds.get(key) {
            Some(list) => contains_index(list, t.2),
            None => false,
        };
        proof {
            assert(triangles@.take(k + 1).drop_last() =~= triangles@.take(k as int));
            assert(triangles@.take(k + 1).last() == t);
            assert(thirds.bucket(pair_key_of(t.0, t.1)).contains(t.2) <==> kept@.contains(t));
        }
        if !present {
            let ghost before = thirds;
            let ghost kept_before = kept@;
            thirds.add(key, t.2);
            kept.push(t);
            proof {
                assert forall|a: usize, b: usize, c: usize|
                    #![trigger thirds.bucket(pair_key_of(a, b)).contains(c)]
                    thirds.bucket(pair_key_of(a, b)).contains(c) <==> kept@.contains(
                        (a, b, c),
                    ) by {
                    lemma_pair_key_injective(a, b, t.0, t.1);
                    let old_list = before.bucket(pair_key_of(a, b));
                    let new_list = thirds.bucket(pair_key_of(a, b));
                    assert(old_list.contains(c) <==> kept_before.contains((a, b, c)));
                    if kept_before.contains((a, b, c)) {
                        let w = choose|w: int|
                            0 <= w < kept_before.len() && kept_before[w] == (a, b, c);
                        assert(kept@[w] == (a, b, c));
                    }
                    if kept@.contains((a, b, c)) {
                        let w = choose|w: int| 0 <= w < kept@.len() && kept@[w] == (a, b, c);
                        if w < kept_before.len() {
                            assert(kept_before[w] == (a, b, c));
                        }
                    }
                    if (a, b) == (t.0, t.1) {
                        if old_list.contains(c) {
                            let w = choose|w: int| 0 <= w < old_list.len() && old_list[w] == c;
                            assert(new_list[w] == c);
                        }
                        if c == t.2 {
                            assert(new_list[old_list.len() as int] == c);
                            assert(kept@[kept_before.len() as int] == t);
                        }
                        if new_list.contains(c) {
                            let w = choose|w: int| 0 <= w < new_list.len() && new_list[w] == c;
                            if w < old_list.len() {
                                assert(old_list[w] == c);
                            }
                        }
                    }
                }
            }
        }
        k += 1;
    }
    proof {
        assert(triangles@.take(k as int) =~= triangles@);
        lemma_first_occurrences_distinct(triangles@);
        lemma_first_occurrences_values(triangles@);
    }
    kept
}

/// Whether the list holds the index.
fn contains_index(list: &Vec<usize>, x: usize) -> (r: bool)
    ensures
        r == list@.contains(x),
{
    let mut i: usize = 0;
    while i < list.len()
        invariant
            i <= list@.len(),
            forall|j: int| 0 <= j < i ==> list@[j] != x,
        decreases list@.len() - i,
    {
        if list[i] == x {
            return true;
        }
        i += 1;
    }
    false
}

} // verus!
