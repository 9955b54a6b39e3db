//! Connected components of a graph given by its edges.

use vstd::prelude::*;
use std::collections::HashSet;
use vstd::std_specs::hash::group_hash_axioms;

verus! {

broadcast use group_hash_axioms;

/// An undirected edge between two vertices.
pub type Edge = (usize, usize);

/// Whether the edge joins `x` and `y`, in either order.
pub open spec fn joins(e: Edge, x: usize, y: usize) -> bool {
    e == (x, y) || e == (y, x)
}

/// Whether some edge joins `x` and `y`.
pub open spec fn adjacent(edges: Seq<Edge>, x: usize, y: usize) -> bool {
    exists|k: int| 0 <= k < edges.len() && joins(#[trigger] edges[k], x, y)
}

/// Whether each vertex of the path is joined to the next by an edge. A
/// single vertex is a path.
pub open spec fn is_walk(edges: Seq<Edge>, path: Seq<usize>) -> bool {
    &&& path.len() >= 1
    &&& forall|i: int| 0 <= i < path.len() - 1 ==> adjacent(edges, #[trigger] path[i], path[i + 1])
}

/// Whether a path leads from `a` to `b`.
pub open spec fn connected(edges: Seq<Edge>, a: usize, b: usize) -> bool {
    exists|path: Seq<usize>| #[trigger] is_walk(edges, path) && path[0] == a && path.last() == b
}

/// Whether the set holds, with each vertex, the vertices joined to it.
pub open spec fn is_closed(edges: Seq<Edge>, vertices: Set<usize>) -> bool {
    forall|x: usize, y: usize|
        vertices.contains(x) && #[trigger] adjacent(edges, x, y) ==> vertices.contains(y)
}

/// Every vertex is connected to itself.
pub proof fn lemma_connected_reflexive(edges: Seq<Edge>, a: usize)
    ensures
        connected(edges, a, a),
{
    assert(is_walk(edges, seq![a]));
}

/// A path can be walked backwards.
pub proof fn lemma_connected_symmetric(edges: Seq<Edge>, a: usize, b: usize)
    requires
        connected(edges, a, b),
    ensures
        connected(edges, b, a),
{
    let path = choose|path: Seq<usize>| #[trigger]
        is_walk(edges, path) && path[0] == a && path.last() == b;
    let back = Seq::new(path.len(), |i: int| path[path.len() - 1 - i]);
    assert forall|i: int| 0 <= i < back.len() - 1 implies adjacent(
        edges,
        #[trigger] back[i],
        back[i + 1],
    ) by {
        let j = path.len() - 2 - i;
        assert(adjacent(edges, path[j], path[j + 1]));
        let k = choose|k: int|
            0 <= k < edges.len() && joins(#[trigger] edges[k], path[j], path[j + 1]);
        assert(joins(edges[k], back[i], back[i + 1]));
    }
    assert(is_walk(edges, back));
}

/// Two paths that meet make one path.
pub proof fn lemma_connected_transitive(edges: Seq<Edge>, a: usize, b: usize, c: usize)
    requires
        connected(edges, a, b),
        connected(edges, b, c),
    ensures
        connected(edges, a, c),
{
    let first = choose|path: Seq<usize>| #[trigger]
        is_walk(edges, path) && path[0] == a && path.last() == b;
    let second = choose|path: Seq<usize>| #[trigger]
        is_walk(edges, path) && path[0] == b && path.last() == c;
    let whole = first + second.subrange(1, second.len() as int);
    assert forall|i: int| 0 <= i < whole.len() - 1 implies adjacent(
        edges,
        #[trigger] whole[i],
        whole[i + 1],
    ) by {
        if i < first.len() - 1 {
            assert(adjacent(edges, first[i], first[i + 1]));
        } else {
            let j = i - (first.len() - 1);
            assert(adjacent(edges, second[j], second[j + 1]));
        }
    }
    assert(is_walk(edges, whole));
}

/// A closed set that holds the first vertex of a path holds the last.
proof fn lemma_closed_holds_walk(edges: Seq<Edge>, vertices: Set<usize>, path: Seq<usize>)
    requires
        is_closed(edges, vertices),
        is_walk(edges, path),
        vertices.contains(path[0]),
    ensures
        vertices.contains(path.last()),
    decreases path.len(),
{
    if path.len() > 1 {
        let shorter = path.drop_last();
        assert forall|i: int| 0 <= i < shorter.len() - 1 implies adjacent(
            edges,
            #[trigger] shorter[i],
            shorter[i + 1],
        ) by {
            assert(adjacent(edges, path[i], path[i + 1]));
        }
        lemma_closed_holds_walk(edges, vertices, shorter);
        let i = path.len() - 2;
        assert(adjacent(edges, path[i], path[i + 1]));
    }
}

/// A closed set holds, with each vertex, everything connected to it.
pub proof fn lemma_closed_holds_component(
    edges: Seq<Edge>,
    vertices: Set<usize>,
    a: usize,
    b: usize,
)
    requires
        is_closed(edges, vertices),
        vertices.contains(a),
        connected(edges, a, b),
    ensures
        vertices.contains(b),
{
    let path = choose|path: Seq<usize>| #[trigger]
        is_walk(edges, path) && path[0] == a && path.last() == b;
    lemma_closed_holds_walk(edges, vertices, path);
}

/// Whether no vertex of the path is in the set.
pub open spec fn avoids(path: Seq<usize>, vertices: Set<usize>) -> bool {
    forall|i: int| 0 <= i < path.len() ==> !vertices.contains(#[trigger] path[i])
}

/// Whether a path leads from `a` to `b` that meets no vertex of the set,
/// `a` and `b` included.
pub open spec fn connected_outside(
    edges: Seq<Edge>,
    vertices: Set<usize>,
    a: usize,
    b: usize,
) -> bool {
    exists|path: Seq<usize>| #[trigger]
        is_walk(edges, path) && path[0] == a && path.last() == b && avoids(path, vertices)
}

/// A vertex outside the set is connected to itself outside the set.
proof fn lemma_outside_reflexive(edges: Seq<Edge>, vertices: Set<usize>, a: usize)
    requires
        !vertices.contains(a),
    ensures
        connected_outside(edges, vertices, a, a),
{
    let path = seq![a];
    assert(is_walk(edges, path));
    assert(avoids(path, vertices));
}

/// A path outside the set can be continued along an edge to a vertex
/// outside the set.
proof fn lemma_outside_step(edges: Seq<Edge>, vertices: Set<usize>, a: usize, b: usize, c: usize)
    requires
        connected_outside(edges, vertices, a, b),
        adjacent(edges, b, c),
        !vertices.contains(c),
    ensures
        connected_outside(edges, vertices, a, c),
{
    let path = choose|path: Seq<usize>| #[trigger]
        is_walk(edges, path) && path[0] == a && path.last() == b && avoids(path, vertices);
    let longer = path.push(c);
    assert forall|i: int| 0 <= i < longer.len() - 1 implies adjacent(
        edges,
        #[trigger] longer[i],
        longer[i + 1],
    ) by {
        if i < path.len() - 1 {
            assert(adjacent(edges, path[i], path[i + 1]));
        }
    }
    assert(is_walk(edges, longer));
    assert forall|i: int| 0 <= i < longer.len() implies !vertices.contains(
        #[trigger] longer[i],
    ) by {
        if i < path.len() {
            assert(longer[i] == path[i]);
        }
    }
    assert(avoids(longer, vertices));
}

/// A set that holds, with each of its vertices outside `avoid`, the
/// vertices joined to it, holds the last vertex of a path outside `avoid`
/// if it holds the first.
proof fn lemma_walk_stays_inside(
    edges: Seq<Edge>,
    inner: Set<usize>,
    avoid: Set<usize>,
    path: Seq<usize>,
)
    requires
        forall|x: usize, y: usize|
            inner.contains(x) && !avoid.contains(x) && #[trigger] adjacent(edges, x, y)
                ==> inner.contains(y),
        is_walk(edges, path),
        avoids(path, avoid),
        inner.contains(path[0]),
    ensures
        inner.contains(path.last()),
    decreases path.len(),
{
    if path.len() > 1 {
        let shorter = path.drop_last();
        assert forall|i: int| 0 <= i < shorter.len() - 1 implies adjacent(
            edges,
            #[trigger] shorter[i],
            shorter[i + 1],
        ) by {
            assert(adjacent(edges, path[i], path[i + 1]));
        }
        assert forall|i: int| 0 <= i < shorter.len() implies !avoid.contains(
            #[trigger] shorter[i],
        ) by {
            assert(shorter[i] == path[i]);
        }
        lemma_walk_stays_inside(edges, inner, avoid, shorter);
        let i = path.len() - 2;
        assert(adjacent(edges, path[i], path[i + 1]));
        assert(shorter[i] == path[i]);
        assert(!avoid.contains(path[i]));
    }
}

/// A path that begins outside a closed set stays outside of it.
proof fn lemma_walk_outside_closed(
    edges: Seq<Edge>,
    vertices: Set<usize>,
    path: Seq<usize>,
    at: int,
)
    requires
        is_closed(edges, vertices),
        is_walk(edges, path),
        !vertices.contains(path[0]),
        0 <= at < path.len(),
    ensures
        !vertices.contains(path[at]),
    decreases at,
{
    if at > 0 {
        lemma_walk_outside_closed(edges, vertices, path, at - 1);
        assert(adjacent(edges, path[at - 1], path[at - 1 + 1]));
        let k = choose|k: int|
            0 <= k < edges.len() && joins(#[trigger] edges[k], path[at - 1], path[at]);
        assert(joins(edges[k], path[at], path[at - 1]));
        assert(adjacent(edges, path[at], path[at - 1]));
    }
}

/// From a vertex outside a closed set, what is connected to it is
/// connected to it outside the set.
pub proof fn lemma_connected_outside_closed(
    edges: Seq<Edge>,
    vertices: Set<usize>,
    a: usize,
    b: usize,
)
    requires
        is_closed(edges, vertices),
        !vertices.contains(a),
    ensures
        connected_outside(edges, vertices, a, b) <==> connected(edges, a, b),
{
    if connected(edges, a, b) {
        let path = choose|path: Seq<usize>| #[trigger]
            is_walk(edges, path) && path[0] == a && path.last() == b;
        assert forall|i: int| 0 <= i < path.len() implies !vertices.contains(
            #[trigger] path[i],
        ) by {
            lemma_walk_outside_closed(edges, vertices, path, i);
        }
        assert(avoids(path, vertices));
    }
    if connected_outside(edges, vertices, a, b) {
        let path = choose|path: Seq<usize>| #[trigger]
            is_walk(edges, path) && path[0] == a && path.last() == b && avoids(path, vertices);
        assert(is_walk(edges, path) && path[0] == a && path.last() == b);
    }
}

/// The number of edge ends that are not in the set.
pub open spec fn unvisited_ends(edges: Seq<Edge>, visited: Set<usize>) -> nat
    decreases edges.len(),
{
    if edges.len() == 0 {
        0
    } else {
        let e = edges.last();
        unvisited_ends(edges.drop_last(), visited) + if visited.contains(e.0) {
            0nat
        } else {
            1nat
        } + if visited.contains(e.1) {
            0nat
        } else {
            1nat
        }
    }
}

/// Whether `x` is an end of some edge.
pub open spec fn is_end(edges: Seq<Edge>, x: usize) -> bool {
    exists|k: int| 0 <= k < edges.len() && ((#[trigger] edges[k]).0 == x || edges[k].1 == x)
}

/// Visiting one more vertex leaves no more ends unvisited, and fewer if the
/// vertex is an end.
proof fn lemma_visit_one(edges: Seq<Edge>, visited: Set<usize>, x: usize)
    requires
        !visited.contains(x),
    ensures
        unvisited_ends(edges, visited.insert(x)) <= unvisited_ends(edges, visited),
        is_end(edges, x) ==> unvisited_ends(edges, visited.insert(x)) < unvisited_ends(
            edges,
            visited,
        ),
    decreases edges.len(),
{
    if edges.len() > 0 {
        let shorter = edges.drop_last();
        lemma_visit_one(shorter, visited, x);
        if is_end(edges, x) {
            let k = choose|k: int|
                0 <= k < edges.len() && ((#[trigger] edges[k]).0 == x || edges[k].1 == x);
            if k < edges.len() - 1 {
                assert(shorter[k] == edges[k]);
                assert(is_end(shorter, x));
            }
        }
    }
}

/// Marks every vertex that can be reached from `node` through vertices
/// that are not marked yet, walking depth first. Where the marked vertices
/// are whole components, a whole component is added to them, or none.
pub fn dfs(node: usize, edges: &Vec<Edge>, visited: &mut HashSet<usize>)
    ensures
        forall|v: usize|
            final(visited)@.contains(v) <==> (old(visited)@.contains(v) || connected_outside(
                edges@,
                old(visited)@,
                node,
                v,
            )),
        is_closed(edges@, old(visited)@) ==> is_closed(edges@, final(visited)@),
{
    let ghost avoid = visited@;
    let mut stack: Vec<usize> = Vec::new();
    stack.push(node);
    proof {
        if !avoid.contains(node) {
            lemma_outside_reflexive(edges@, avoid, node);
        }
        assert(stack@[0] == node);
    }
    while stack.len() > 0
        invariant
            avoid == old(visited)@,
            forall|v: usize| #[trigger]
                visited@.contains(v) ==> (avoid.contains(v) || connected_outside(
                    edges@,
                    avoid,
                    node,
                    v,
                )),
            forall|v: usize| avoid.contains(v) ==> visited@.contains(v),
            forall|i: int|
                0 <= i < stack@.len() ==> avoid.contains(#[trigger] stack@[i])
                    || connected_outside(edges@, avoid, node, stack@[i]),
            forall|x: usize, y: usize|
                visited@.contains(x) && !avoid.contains(x) && #[trigger] adjacent(edges@, x, y)
                    ==> (visited@.contains(y) || stack@.contains(y)),
            visited@.contains(node) || stack@.contains(node),
        decreases unvisited_ends(edges@, visited@), stack@.len(),
    {
        let ghost stack_before = stack@;
        let ghost visited_before = visited@;
        let x: usize = stack.pop().unwrap();
        proof {
            assert(stack_before[stack_before.len() - 1] == x);
            assert forall|y: usize| stack_before.contains(y) implies (y == x || stack@.contains(
                y,
            )) by {
                let w = choose|w: int| 0 <= w < stack_before.len() && stack_before[w] == y;
                if w < stack@.len() {
                    assert(stack@[w] == y);
                }
            }
        }
        if !visited.contains(&x) {
            assert(!avoid.contains(x));
            assert(connected_outside(edges@, avoid, node, x));
            visited.insert(x);
            proof {
                lemma_visit_one(edges@, visited_before, x);
            }
            let ghost stack_popped = stack@;
            let mut k: usize = 0;
            while k < edges.len()
                invariant
                    k <= edges.len(),
                    visited@ == visited_before.insert(x),
                    avoid == old(visited)@,
                    forall|v: usize| avoid.contains(v) ==> visited@.contains(v),
                    !avoid.contains(x),
                    connected_outside(edges@, avoid, node, x),
                    stack@.len() >= stack_popped.len(),
                    stack@.len() > stack_popped.len() ==> is_end(edges@, x),
                    forall|i: int|
                        0 <= i < stack_popped.len() ==> stack@[i] == stack_popped[i],
                    forall|i: int|
                        0 <= i < stack@.len() ==> avoid.contains(#[trigger] stack@[i])
                            || connected_outside(edges@, avoid, node, stack@[i]),
                    forall|j: int, y: usize|
                        0 <= j < k && #[trigger] joins(edges@[j], x, y) ==> (visited@.contains(y)
                            || stack@.contains(y)),
                decreases edges.len() - k,
            {
                let e: Edge = edges[k];
                let ghost stack_mid = stack@;
                if e.0 == x && !visited.contains(&e.1) {
                    proof {
                        assert(joins(edges@[k as int], x, e.1));
                        lemma_outside_step(edges@, avoid, node, x, e.1);
                    }
                    stack.push(e.1);
                }
                let ghost stack_mid2 = stack@;
                if e.1 == x && !visited.contains(&e.0) {
                    proof {
                        assert(joins(edges@[k as int], x, e.0));
                        lemma_outside_step(edges@, avoid, node, x, e.0);
                    }
                    stack.push(e.0);
                }
                proof {
                    assert forall|y: usize| stack_mid.contains(y) implies stack@.contains(y) by {
                        let w = choose|w: int| 0 <= w < stack_mid.len() && stack_mid[w] == y;
                        assert(stack@[w] == y);
                    }
                    if stack_mid2.len() > stack_mid.len() {
                        assert(stack@[stack_mid.len() as int] == e.1);
                    }
                    if stack@.len() > stack_mid2.len() {
                        assert(stack@[stack_mid2.len() as int] == e.0);
                    }
                }
                k += 1;
            }
            proof {
                assert forall|y: usize| stack_popped.contains(y) implies stack@.contains(y) by {
                    let w = choose|w: int| 0 <= w < stack_popped.len() && stack_popped[w] == y;
                    assert(stack@[w] == y);
                }
                assert forall|a: usize, b: usize|
                    visited@.contains(a) && !avoid.contains(a) && #[trigger] adjacent(
                        edges@,
                        a,
                        b,
                    ) implies (visited@.contains(b) || stack@.contains(b)) by {
                    if a == x {
                        let j = choose|j: int|
                            0 <= j < edges@.len() && joins(#[trigger] edges@[j], a, b);
                        assert(joins(edges@[j], x, b));
                    } else {
                        assert(visited_before.contains(a));
                    }
                }
            }
        }
    }
    proof {
        assert forall|a: usize, b: usize|
            visited@.contains(a) && !avoid.contains(a) && #[trigger] adjacent(
                edges@,
                a,
                b,
            ) implies visited@.contains(b) by {
            assert(!stack@.contains(b));
        }
        assert forall|v: usize|
            connected_outside(edges@, avoid, node, v) implies visited@.contains(v) by {
            let path = choose|path: Seq<usize>| #[trigger]
                is_walk(edges@, path) && path[0] == node && path.last() == v && avoids(
                    path,
                    avoid,
                );
            assert(!avoid.contains(path[0]));
            assert(!stack@.contains(node));
            lemma_walk_stays_inside(edges@, visited@, avoid, path);
        }
    }
}

/// Whether the edge `k` is the first of its component: no earlier edge is
/// connected to it.
pub open spec fn starts_component(edges: Seq<Edge>, k: int) -> bool {
    forall|j: int| 0 <= j < k ==> !connected(edges, (#[trigger] edges[j]).0, edges[k].0)
}

/// The number of components among the first `m` edges: each component is
/// counted at its first edge.
pub open spec fn components_upto(edges: Seq<Edge>, m: nat) -> nat
    decreases m,
{
    if m == 0 {
        0
    } else {
        components_upto(edges, (m - 1) as nat) + if starts_component(edges, m - 1) {
            1nat
        } else {
            0nat
        }
    }
}

/// The number of connected components of the graph that the edges form.
/// Its vertices are the ends of the edges; without edges there is none.
pub open spec fn component_count(edges: Seq<Edge>) -> nat {
    components_upto(edges, edges.len())
}

/// Every edge is connected to an edge that starts a component.
pub proof fn lemma_component_has_start(edges: Seq<Edge>, k: int)
    requires
        0 <= k < edges.len(),
    ensures
        exists|j: int|
            0 <= j <= k && #[trigger] starts_component(edges, j) && connected(
                edges,
                edges[j].0,
                edges[k].0,
            ),
    decreases k,
{
    if starts_component(edges, k) {
        lemma_connected_reflexive(edges, edges[k].0);
    } else {
        let nearer = choose|j: int|
            0 <= j < k && connected(edges, (#[trigger] edges[j]).0, edges[k].0);
        lemma_component_has_start(edges, nearer);
        let j = choose|j: int|
            0 <= j <= nearer && #[trigger] starts_component(edges, j) && connected(
                edges,
                edges[j].0,
                edges[nearer].0,
            );
        lemma_connected_transitive(edges, edges[j].0, edges[nearer].0, edges[k].0);
    }
}

/// The edges that start a component stand for the components: no two of
/// them are connected. With `lemma_component_has_start`, each edge is
/// connected to exactly one of them, so that `component_count` is the
/// number of connected components.
pub proof fn lemma_starts_are_apart(edges: Seq<Edge>, j: int, k: int)
    requires
        0 <= j < edges.len(),
        0 <= k < edges.len(),
        j != k,
        starts_component(edges, j),
        starts_component(edges, k),
    ensures
        !connected(edges, edges[j].0, edges[k].0),
{
    if connected(edges, edges[j].0, edges[k].0) {
        if j < k {
            let _ = edges[j];
        } else {
            lemma_connected_symmetric(edges, edges[j].0, edges[k].0);
            let _ = edges[k];
        }
    }
}

/// Counts the connected components of the graph that the edges form,
/// walking depth first from an end of each edge that no walk has reached.
pub fn number_of_components(edges: &Vec<Edge>) -> (r: usize)
    ensures
        r == component_count(edges@),
{
    if edges.len() == 0 {
        return 0;
    }
    let mut visited: HashSet<usize> = HashSet::new();
    let mut component_count: usize = 0;
    let mut k: usize = 0;
    while k < edges.len()
        invariant
            k <= edges.len(),
            component_count == components_upto(edges@, k as nat),
            component_count <= k,
            is_closed(edges@, visited@),
            forall|v: usize| #[trigger]
                visited@.contains(v) <==> exists|j: int|
                    0 <= j < k && connected(edges@, (#[trigger] edges@[j]).0, v),
        decreases edges.len() - k,
    {
        let node: usize = edges[k].0;
        let ghost before = visited@;
        let fresh: bool = !visited.contains(&node);
        proof {
            if fresh {
                assert(starts_component(edges@, k as int));
            } else {
                let j = choose|j: int|
                    0 <= j < k && connected(edges@, (#[trigger] edges@[j]).0, node);
                assert(!starts_component(edges@, k as int));
            }
        }
        if fresh {
            dfs(node, edges, &mut visited);
            component_count += 1;
        }
        proof {
            if fresh {
                assert forall|v: usize|
                    connected_outside(edges@, before, node, v) <==> connected(
                        edges@,
                        node,
                        v,
                    ) by {
                    lemma_connected_outside_closed(edges@, before, node, v);
                }
            }
            assert forall|v: usize| #[trigger]
                visited@.contains(v) <==> exists|j: int|
                    0 <= j < k + 1 && connected(edges@, (#[trigger] edges@[j]).0, v) by {
                if before.contains(v) {
                    let j = choose|j: int|
                        0 <= j < k && connected(edges@, (#[trigger] edges@[j]).0, v);
                    assert(0 <= j < k + 1 && connected(edges@, edges@[j].0, v));
                }
                if connected(edges@, edges@[k as int].0, v) {
                    if !fresh {
                        lemma_closed_holds_component(edges@, before, node, v);
                    }
                }
                if exists|j: int| 0 <= j < k + 1 && connected(edges@, (#[trigger] edges@[j]).0, v) {
                    let j = choose|j: int|
                        0 <= j < k + 1 && connected(edges@, (#[trigger] edges@[j]).0, v);
                    if j < k {
                        assert(before.contains(v));
                    }
                }
            }
        }
        k += 1;
    }
    component_count
}

} // verus!
