//! Breadth-first order over neighbor lists.

use vstd::prelude::*;
use crate::seqs::first_occurrences;
use crate::seqs::lemma_first_occurrences_distinct;
use crate::seqs::lemma_first_occurrences_values;
use crate::topology::lists_of;
use crate::topology::lists_valid;

verus! {

/// What a walk puts on its queue: the start, then the neighbors of each
/// visited position, in the order of the visits.
pub open spec fn enqueued(lists: Seq<Seq<usize>>, start: usize, order: Seq<usize>) -> Seq<usize>
    decreases order.len(),
{
    if order.len() == 0 {
        seq![start]
    } else {
        enqueued(lists, start, order.drop_last()) + lists[order.last() as int]
    }
}

/// Whether `order` is the breadth-first order from `start`: the positions
/// in the order in which they first come off the queue, each after a
/// position that has it as a neighbor.
pub open spec fn is_breadth_first(lists: Seq<Seq<usize>>, start: usize, order: Seq<usize>) -> bool {
    &&& order == first_occurrences(enqueued(lists, start, order))
    &&& forall|m: int| 0 <= m < order.len() ==> (#[trigger] order[m]) < lists.len()
    &&& forall|m: int|
        1 <= m < order.len() ==> exists|i: int|
            0 <= i < m && lists[order[i] as int].contains(#[trigger] order[m])
}

/// The number of flags that are not set.
pub open spec fn unset_count(flags: Seq<bool>) -> nat
    decreases flags.len(),
{
    if flags.len() == 0 {
        0
    } else {
        unset_count(flags.drop_last()) + if flags.last() {
            0nat
        } else {
            1nat
        }
    }
}

/// Setting a flag leaves one fewer unset.
proof fn lemma_set_flag(flags: Seq<bool>, x: int)
    requires
        0 <= x < flags.len(),
        !flags[x],
    ensures
        unset_count(flags.update(x, true)) + 1 == unset_count(flags),
    decreases flags.len(),
{
    let after = flags.update(x, true);
    if x == flags.len() - 1 {
        assert(after.drop_last() =~= flags.drop_last());
    } else {
        assert(after.drop_last() =~= flags.drop_last().update(x, true));
        lemma_set_flag(flags.drop_last(), x);
    }
}

/// What is on the queue after the start is a neighbor of a visited
/// position.
proof fn lemma_enqueued_origin(lists: Seq<Seq<usize>>, start: usize, order: Seq<usize>, at: int)
    requires
        1 <= at < enqueued(lists, start, order).len(),
    ensures
        exists|i: int|
            0 <= i < order.len() && lists[(#[trigger] order[i]) as int].contains(
                enqueued(lists, start, order)[at],
            ),
    decreases order.len(),
{
    if order.len() > 0 {
        let shorter = order.drop_last();
        let before = enqueued(lists, start, shorter);
        let added = lists[order.last() as int];
        if at < before.len() {
            lemma_enqueued_origin(lists, start, shorter, at);
            let i = choose|i: int|
                0 <= i < shorter.len() && lists[(#[trigger] shorter[i]) as int].contains(
                    before[at],
                );
            assert(order[i] == shorter[i]);
        } else {
            let i = order.len() - 1;
            assert(added[at - before.len()] == enqueued(lists, start, order)[at]);
            assert(lists[order[i] as int].contains(enqueued(lists, start, order)[at]));
        }
    }
}

/// The positions that can be reached from `start` through the neighbor
/// lists, in breadth-first order.
pub fn breadth_first_order(neighbors: &Vec<Vec<usize>>, start: usize) -> (r: Vec<usize>)
    requires
        start < neighbors@.len(),
        lists_valid(lists_of(neighbors@)),
    ensures
        is_breadth_first(lists_of(neighbors@), start, r@),
        r@.no_duplicates(),
        r@.len() >= 1,
        r@[0] == start,
{
    let mut visited: Vec<bool> = clear_flags(neighbors.len());
    walk_with_flags(neighbors, start, &mut visited)
}

/// As many flags as asked for, none set.
fn clear_flags(n: usize) -> (r: Vec<bool>)
    ensures
        r@.len() == n,
        forall|y: int| 0 <= y < n ==> !r@[y],
{
    let mut flags: Vec<bool> = Vec::new();
    let mut x: usize = 0;
    while x < n
        invariant
            x <= n,
            flags@.len() == x,
            forall|y: int| 0 <= y < x ==> !flags@[y],
        decreases n - x,
    {
        flags.push(false);
        x += 1;
    }
    flags
}

/// The breadth-first order from `start`, with the flags of the visited
/// positions set on the way.
fn walk_with_flags(neighbors: &Vec<Vec<usize>>, start: usize, visited: &mut Vec<bool>) -> (r: Vec<
    usize,
>)
    requires
        start < neighbors@.len(),
        lists_valid(lists_of(neighbors@)),
        old(visited)@.len() == neighbors@.len(),
        forall|y: int| 0 <= y < old(visited)@.len() ==> !old(visited)@[y],
    ensures
        is_breadth_first(lists_of(neighbors@), start, r@),
        r@.no_duplicates(),
        r@.len() >= 1,
        r@[0] == start,
        final(visited)@.len() == neighbors@.len(),
        forall|y: usize|
            y < neighbors@.len() ==> (final(visited)@[y as int] <==> r@.contains(y)),
{
    let ghost lists = lists_of(neighbors@);
    let n: usize = neighbors.len();
    let mut order: Vec<usize> = Vec::new();
    let mut to_visit: Vec<usize> = Vec::new();
    to_visit.push(start);
    let mut head: usize = 0;
    proof {
        assert(to_visit@ =~= enqueued(lists, start, order@));
        assert(to_visit@.take(0) =~= Seq::<usize>::empty());
    }
    while head < to_visit.len()
        invariant
            lists == lists_of(neighbors@),
            n == neighbors@.len(),
            lists_valid(lists),
            start < n,
            head <= to_visit@.len(),
            to_visit@ == enqueued(lists, start, order@),
            order@ == first_occurrences(to_visit@.take(head as int)),
            visited@.len() == n,
            forall|y: usize| y < n ==> (visited@[y as int] <==> order@.contains(y)),
            forall|i: int| 0 <= i < to_visit@.len() ==> (#[trigger] to_visit@[i]) < n,
            forall|m: int| 0 <= m < order@.len() ==> (#[trigger] order@[m]) < n,
            forall|m: int|
                1 <= m < order@.len() ==> exists|i: int|
                    0 <= i < m && lists[order@[i] as int].contains(#[trigger] order@[m]),
            to_visit@[0] == start,
            head >= 1 ==> order@.len() >= 1 && order@[0] == start,
            head == 0 ==> order@.len() == 0,
        decreases unset_count(visited@), to_visit@.len() - head,
    {
        let current: usize = to_visit[head];
        let ghost queue_before = to_visit@;
        let ghost order_before = order@;
        proof {
            assert(queue_before.take(head + 1).drop_last() =~= queue_before.take(head as int));
            assert(queue_before.take(head + 1).last() == current);
        }
        if visited[current] {
            assert(order@.contains(current));
        }
        if !visited[current] {
            proof {
                lemma_set_flag(visited@, current as int);
                if head >= 1 {
                    lemma_enqueued_origin(lists, start, order@, head as int);
                }
            }
            visited[current] = true;
            order.push(current);
            let list: &Vec<usize> = &neighbors[current];
            let mut j: usize = 0;
            while j < list.len()
                invariant
                    j <= list@.len(),
                    list@ == lists[current as int],
                    lists_valid(lists),
                    current < lists.len(),
                    n == lists.len(),
                    to_visit@ == queue_before + list@.take(j as int),
                    forall|i: int| 0 <= i < queue_before.len() ==> (#[trigger] queue_before[i]) < n,
                decreases list@.len() - j,
            {
                proof {
                    assert(lists[current as int][j as int] < lists.len());
                    assert(list@.take(j + 1) =~= list@.take(j as int).push(list@[j as int]));
                }
                to_visit.push(list[j]);
                assert(to_visit@ =~= queue_before + list@.take(j + 1));
                j += 1;
            }
            proof {
                assert(list@.take(j as int) =~= list@);
                assert(order@.drop_last() =~= order_before);
                assert(order@.last() == current);
                assert(to_visit@.take(head + 1) =~= queue_before.take(head + 1));
                assert forall|y: usize| y < n implies (visited@[y as int] <==> order@.contains(
                    y,
                )) by {
                    if order_before.contains(y) {
                        let w = choose|w: int| 0 <= w < order_before.len() && order_before[w] == y;
                        assert(order@[w] == y);
                    }
                    if y == current {
                        assert(order@[order_before.len() as int] == y);
                    }
                }
                assert forall|i: int| 0 <= i < to_visit@.len() implies (#[trigger] to_visit@[i])
                    < n by {
                    if i >= queue_before.len() {
                        assert(to_visit@[i] == lists[current as int][i - queue_before.len()]);
                    }
                }
                assert forall|m: int| 1 <= m < order@.len() implies exists|i: int|
                    0 <= i < m && lists[order@[i] as int].contains(#[trigger] order@[m]) by {
                    if m < order_before.len() {
                        let i = choose|i: int|
                            0 <= i < m && lists[order_before[i] as int].contains(order_before[m]);
                        assert(order@[i] == order_before[i]);
                        assert(order@[m] == order_before[m]);
                    } else {
                        let i = choose|i: int|
                            0 <= i < order_before.len() && lists[(
                            #[trigger] order_before[i]) as int].contains(queue_before[head as int]);
                        assert(order@[i] == order_before[i]);
                    }
                }
            }
        } else {
            proof {
                assert(to_visit@.take(head + 1) =~= queue_before.take(head + 1));
            }
        }
        head += 1;
    }
    proof {
        assert(to_visit@.take(head as int) =~= to_visit@);
        lemma_first_occurrences_distinct(to_visit@);
    }
    order
}

/// Whether `part` is the beginning of `whole`.
pub open spec fn is_prefix(part: Seq<usize>, whole: Seq<usize>) -> bool {
    &&& part.len() <= whole.len()
    &&& forall|i: int| 0 <= i < part.len() ==> part[i] == whole[i]
}

/// The first occurrences of a beginning are the beginning of the first
/// occurrences.
proof fn lemma_first_occurrences_prefix(s: Seq<usize>, k: int)
    requires
        0 <= k <= s.len(),
    ensures
        is_prefix(first_occurrences(s.take(k)), first_occurrences(s)),
    decreases s.len(),
{
    if k == s.len() {
        assert(s.take(k) =~= s);
    } else {
        let shorter = s.drop_last();
        assert(shorter.take(k) =~= s.take(k));
        lemma_first_occurrences_prefix(shorter, k);
    }
}

/// What the beginning of a walk puts on the queue is the beginning of what
/// the walk puts there.
proof fn lemma_enqueued_prefix(lists: Seq<Seq<usize>>, start: usize, order: Seq<usize>, m: int)
    requires
        0 <= m <= order.len(),
    ensures
        is_prefix(enqueued(lists, start, order.take(m)), enqueued(lists, start, order)),
        enqueued(lists, start, order).len() >= 1,
        enqueued(lists, start, order)[0] == start,
    decreases order.len(),
{
    if order.len() > 0 {
        let shorter = order.drop_last();
        lemma_enqueued_prefix(lists, start, shorter, 0);
        if m == order.len() {
            assert(order.take(m) =~= order);
        } else {
            assert(shorter.take(m) =~= order.take(m));
            lemma_enqueued_prefix(lists, start, shorter, m);
        }
    } else {
        assert(order.take(m) =~= order);
    }
}

/// The neighbors of a visited position are on the queue.
proof fn lemma_enqueued_holds_neighbors(
    lists: Seq<Seq<usize>>,
    start: usize,
    order: Seq<usize>,
    i: int,
    y: usize,
)
    requires
        0 <= i < order.len(),
        lists[order[i] as int].contains(y),
    ensures
        enqueued(lists, start, order).contains(y),
    decreases order.len(),
{
    let shorter = order.drop_last();
    let before = enqueued(lists, start, shorter);
    let all = enqueued(lists, start, order);
    if i == order.len() - 1 {
        let added = lists[order.last() as int];
        let w = choose|w: int| 0 <= w < added.len() && added[w] == y;
        assert(all[before.len() + w] == y);
    } else {
        lemma_enqueued_holds_neighbors(lists, start, shorter, i, y);
        let w = choose|w: int| 0 <= w < before.len() && before[w] == y;
        assert(all[w] == y);
    }
}

/// Two breadth-first orders from one start agree on their first `m`
/// positions.
proof fn lemma_breadth_first_agree(
    lists: Seq<Seq<usize>>,
    start: usize,
    a: Seq<usize>,
    b: Seq<usize>,
    m: int,
)
    requires
        is_breadth_first(lists, start, a),
        is_breadth_first(lists, start, b),
        0 <= m <= a.len(),
        m <= b.len(),
    ensures
        a.take(m) =~= b.take(m),
    decreases m,
{
    if m > 0 {
        let at = m - 1;
        lemma_breadth_first_agree(lists, start, a, b, at);
        let common = a.take(at);
        assert(common =~= b.take(at));
        lemma_next_visit(lists, start, a, at);
        lemma_next_visit(lists, start, b, at);
        assert(a[at] == b[at]);
        assert forall|i: int| 0 <= i < m implies a.take(m)[i] == b.take(m)[i] by {
            if i < at {
                assert(a.take(at)[i] == b.take(at)[i]);
            }
        }
    }
}

/// The position that a breadth-first order visits at place `at` is the one
/// at that place among the first occurrences of what the visits before it
/// put on the queue.
proof fn lemma_next_visit(lists: Seq<Seq<usize>>, start: usize, order: Seq<usize>, at: int)
    requires
        is_breadth_first(lists, start, order),
        0 <= at < order.len(),
    ensures
        at < first_occurrences(enqueued(lists, start, order.take(at))).len(),
        first_occurrences(enqueued(lists, start, order.take(at)))[at] == order[at],
{
    let whole = enqueued(lists, start, order);
    let part = enqueued(lists, start, order.take(at));
    let value = order[at];
    lemma_enqueued_prefix(lists, start, order, at);
    assert(whole.take(part.len() as int) =~= part);
    lemma_first_occurrences_prefix(whole, part.len() as int);
    lemma_first_occurrences_values(part);
    lemma_first_occurrences_distinct(whole);
    // The value is on the queue that the visits before it made.
    if at == 0 {
        lemma_enqueued_prefix(lists, start, order.take(at), 0);
        lemma_enqueued_prefix(lists, start, order, 0);
        lemma_first_occurrences_prefix(whole, 1);
        assert(whole.take(1) =~= seq![start]);
        assert(first_occurrences(seq![start].drop_last()) =~= Seq::<usize>::empty());
        assert(first_occurrences(seq![start]) =~= seq![start]);
        assert(value == start);
        assert(part[0] == start);
    } else {
        let i = choose|i: int| 0 <= i < at && lists[order[i] as int].contains(order[at]);
        assert(order.take(at)[i] == order[i]);
        lemma_enqueued_holds_neighbors(lists, start, order.take(at), i, value);
    }
    assert(part.contains(value));
    let found = first_occurrences(part);
    assert(found.contains(value));
    let w = choose|w: int| 0 <= w < found.len() && found[w] == value;
    assert(order[w] == value);
}

/// There is one breadth-first order from a start.
pub proof fn lemma_breadth_first_unique(
    lists: Seq<Seq<usize>>,
    start: usize,
    a: Seq<usize>,
    b: Seq<usize>,
)
    requires
        is_breadth_first(lists, start, a),
        is_breadth_first(lists, start, b),
    ensures
        a == b,
{
    if a.len() <= b.len() {
        lemma_breadth_first_agree(lists, start, a, b, a.len() as int);
        assert(a.take(a.len() as int) =~= a);
        lemma_walks_end_together(lists, start, a, b);
        assert(b.take(b.len() as int) =~= b);
    } else {
        lemma_breadth_first_agree(lists, start, a, b, b.len() as int);
        assert(b.take(b.len() as int) =~= b);
        lemma_walks_end_together(lists, start, b, a);
        assert(a.take(a.len() as int) =~= a);
    }
}

/// A breadth-first order that begins with another one is no longer than
/// it.
proof fn lemma_walks_end_together(
    lists: Seq<Seq<usize>>,
    start: usize,
    a: Seq<usize>,
    b: Seq<usize>,
)
    requires
        is_breadth_first(lists, start, a),
        is_breadth_first(lists, start, b),
        a.len() <= b.len(),
        a =~= b.take(a.len() as int),
    ensures
        a.len() == b.len(),
{
    if a.len() < b.len() {
        let at = a.len() as int;
        lemma_next_visit(lists, start, b, at);
        let found = first_occurrences(enqueued(lists, start, b.take(at)));
        assert(b.take(at) =~= a);
        assert(found == a);
    }
}

/// The breadth-first order from a position: the one there is.
pub open spec fn walk_of(lists: Seq<Seq<usize>>, start: usize) -> Seq<usize> {
    choose|order: Seq<usize>| is_breadth_first(lists, start, order)
}

/// The visit of the first `k` positions and of all that can be reached from
/// them: from each position in turn that was not visited yet, the
/// breadth-first order from it, without what was visited before.
pub open spec fn visit_upto(lists: Seq<Seq<usize>>, k: nat) -> Seq<usize>
    decreases k,
{
    if k == 0 {
        Seq::empty()
    } else {
        let earlier = visit_upto(lists, (k - 1) as nat);
        let seed = (k - 1) as usize;
        if earlier.contains(seed) {
            earlier
        } else {
            first_occurrences(earlier + walk_of(lists, seed))
        }
    }
}

/// The visit of all positions: walk after walk, each from the first
/// position that no walk before it has reached.
pub open spec fn full_visit(lists: Seq<Seq<usize>>) -> Seq<usize> {
    visit_upto(lists, lists.len())
}

/// A sequence without repetition is its own first occurrences.
proof fn lemma_first_occurrences_of_distinct(s: Seq<usize>)
    requires
        s.no_duplicates(),
    ensures
        first_occurrences(s) == s,
    decreases s.len(),
{
    if s.len() > 0 {
        let shorter = s.drop_last();
        lemma_first_occurrences_of_distinct(shorter);
        if shorter.contains(s.last()) {
            let w = choose|w: int| 0 <= w < shorter.len() && shorter[w] == s.last();
            assert(s[w] == s[s.len() - 1]);
        }
        assert(shorter.push(s.last()) =~= s);
    }
}

/// Visits every position: walk after walk in breadth-first order, each from
/// the first position that no walk before it has reached.
pub fn visit_every_position(neighbors: &Vec<Vec<usize>>) -> (r: Vec<usize>)
    requires
        lists_valid(lists_of(neighbors@)),
    ensures
        r@ == full_visit(lists_of(neighbors@)),
        r@.no_duplicates(),
        forall|m: int| 0 <= m < r@.len() ==> (#[trigger] r@[m]) < neighbors@.len(),
        forall|p: usize| p < neighbors@.len() ==> r@.contains(p),
{
    let ghost lists = lists_of(neighbors@);
    let n: usize = neighbors.len();
    let mut seen: Vec<bool> = clear_flags(n);
    let mut scratch: Vec<bool> = clear_flags(n);
    let mut order: Vec<usize> = Vec::new();
    let mut seed: usize = 0;
    while seed < n
        invariant
            seed <= n,
            n == neighbors@.len(),
            lists == lists_of(neighbors@),
            lists_valid(lists),
            seen@.len() == n,
            scratch@.len() == n,
            forall|y: int| 0 <= y < n ==> !scratch@[y],
            order@ == visit_upto(lists, seed as nat),
            order@.no_duplicates(),
            forall|m: int| 0 <= m < order@.len() ==> (#[trigger] order@[m]) < n,
            forall|y: usize| y < n ==> (seen@[y as int] <==> order@.contains(y)),
            forall|p: usize| p < seed ==> order@.contains(p),
        decreases n - seed,
    {
        if !seen[seed] {
            let ghost earlier = order@;
            let walk = walk_with_flags(neighbors, seed, &mut scratch);
            proof {
                lemma_breadth_first_unique(lists, seed, walk@, walk_of(lists, seed));
                lemma_first_occurrences_of_distinct(earlier);
                assert(earlier + walk@.take(0) =~= earlier);
                assert(walk@.skip(0) =~= walk@);
            }
            let mut j: usize = 0;
            while j < walk.len()
                invariant
                    j <= walk@.len(),
                    seen@.len() == n,
                    scratch@.len() == n,
                    walk@.no_duplicates(),
                    forall|m: int| 0 <= m < walk@.len() ==> (#[trigger] walk@[m]) < n,
                    forall|y: usize|
                        y < n ==> (scratch@[y as int] <==> walk@.skip(j as int).contains(y)),
                    order@ == first_occurrences(earlier + walk@.take(j as int)),
                    forall|m: int| 0 <= m < order@.len() ==> (#[trigger] order@[m]) < n,
                    forall|y: usize| y < n ==> (seen@[y as int] <==> order@.contains(y)),
                    forall|y: usize| earlier.contains(y) ==> order@.contains(y),
                    j >= 1 ==> order@.contains(walk@[0]),
                decreases walk@.len() - j,
            {
                let x: usize = walk[j];
                let ghost order_before = order@;
                proof {
                    let longer = earlier + walk@.take(j + 1);
                    assert(longer.drop_last() =~= earlier + walk@.take(j as int));
                    assert(longer.last() == x);
                    assert(walk@.skip(j as int)[0] == x);
                }
                scratch[x] = false;
                if !seen[x] {
                    seen[x] = true;
                    order.push(x);
                }
                proof {
                    assert forall|y: usize| order_before.contains(y) implies order@.contains(
                        y,
                    ) by {
                        let w = choose|w: int| 0 <= w < order_before.len() && order_before[w] == y;
                        assert(order@[w] == y);
                    }
                    if order@.len() > order_before.len() {
                        assert(order@[order_before.len() as int] == x);
                    }
                    assert forall|y: usize| y < n implies (seen@[y as int] <==> order@.contains(
                        y,
                    )) by {
                        if order@.contains(y) && y != x {
                            let w = choose|w: int| 0 <= w < order@.len() && order@[w] == y;
                            assert(order_before[w] == y);
                        }
                    }
                    assert forall|y: usize| y < n implies (scratch@[y as int] <==> walk@.skip(
                        j + 1,
                    ).contains(y)) by {
                        let rest = walk@.skip(j as int);
                        let next = walk@.skip(j + 1);
                        if next.contains(y) {
                            let w = choose|w: int| 0 <= w < next.len() && next[w] == y;
                            assert(rest[w + 1] == y);
                            assert(walk@[j + 1 + w] == y);
                            assert(y != x);
                        }
                        if rest.contains(y) && y != x {
                            let w = choose|w: int| 0 <= w < rest.len() && rest[w] == y;
                            assert(next[w - 1] == y);
                        }
                    }
                }
                j += 1;
            }
            proof {
                assert(walk@.take(j as int) =~= walk@);
                lemma_first_occurrences_distinct(earlier + walk@);
                assert forall|y: int| 0 <= y < n implies !scratch@[y] by {
                    assert(walk@.skip(j as int).len() == 0);
                    if scratch@[y] {
                        assert(walk@.skip(j as int).contains(y as usize));
                    }
                }
                assert forall|p: usize| p < seed + 1 implies order@.contains(p) by {
                    if p < seed {
                        assert(earlier.contains(p));
                    }
                }
            }
        } else {
            assert(order@.contains(seed));
        }
        seed += 1;
    }
    order
}

} // verus!
