//! Facts about sequences that the passes share.

use vstd::prelude::*;

verus! {

/// Filtering a sequence with one more item at its end.
pub proof fn lemma_filter_push<T>(s: Seq<T>, x: T, keep: spec_fn(T) -> bool)
    ensures
        s.push(x).filter(keep) == if keep(x) {
            s.filter(keep).push(x)
        } else {
            s.filter(keep)
        },
{
    reveal(Seq::filter);
    assert(s.push(x).drop_last() =~= s);
}

/// Filtering the empty sequence.
pub proof fn lemma_filter_empty<T>(keep: spec_fn(T) -> bool)
    ensures
        Seq::<T>::empty().filter(keep) == Seq::<T>::empty(),
{
    reveal(Seq::filter);
}

/// A prefix with one more item.
pub proof fn lemma_take_push<T>(s: Seq<T>, i: int)
    requires
        0 <= i < s.len(),
    ensures
        s.take(i + 1) == s.take(i).push(s[i]),
{
    assert(s.take(i + 1) =~= s.take(i).push(s[i]));
}

/// What is kept of a sequence without repetition has none.
pub proof fn lemma_filter_no_duplicates<T>(s: Seq<T>, keep: spec_fn(T) -> bool)
    requires
        s.no_duplicates(),
    ensures
        s.filter(keep).no_duplicates(),
    decreases s.len(),
{
    reveal(Seq::filter);
    if s.len() > 0 {
        let rest = s.drop_last();
        lemma_filter_no_duplicates(rest, keep);
        if keep(s.last()) {
            let kept = rest.filter(keep);
            assert forall|i: int| 0 <= i < kept.len() implies kept[i] != s.last() by {
                assert(kept.contains(kept[i]));
                rest.lemma_filter_contains_rev(keep, kept[i]);
            }
        }
    }
}

/// The sequence without the later occurrences of each value.
pub open spec fn first_occurrences<T>(s: Seq<T>) -> Seq<T>
    decreases s.len(),
{
    if s.len() == 0 {
        Seq::empty()
    } else {
        let earlier = first_occurrences(s.drop_last());
        if earlier.contains(s.last()) {
            earlier
        } else {
            earlier.push(s.last())
        }
    }
}

/// The first occurrences of a sequence have no repetition.
pub proof fn lemma_first_occurrences_distinct<T>(s: Seq<T>)
    ensures
        first_occurrences(s).no_duplicates(),
    decreases s.len(),
{
    if s.len() > 0 {
        lemma_first_occurrences_distinct(s.drop_last());
    }
}

/// The first occurrences of a sequence hold the values that it holds.
pub proof fn lemma_first_occurrences_values<T>(s: Seq<T>)
    ensures
        forall|x: T| #[trigger] first_occurrences(s).contains(x) <==> s.contains(x),
    decreases s.len(),
{
    if s.len() > 0 {
        let shorter = s.drop_last();
        let earlier = first_occurrences(shorter);
        let all = first_occurrences(s);
        lemma_first_occurrences_values(shorter);
        assert forall|x: T| #[trigger] all.contains(x) <==> s.contains(x) by {
            let _ = earlier.contains(x);
            if all.contains(x) {
                let w = choose|w: int| 0 <= w < all.len() && all[w] == x;
                if w < earlier.len() {
                    assert(earlier[w] == x);
                    assert(earlier.contains(x));
                    let v = choose|v: int| 0 <= v < shorter.len() && shorter[v] == x;
                    assert(s[v] == x);
                } else {
                    assert(s[s.len() - 1] == x);
                }
            }
            if s.contains(x) {
                let v = choose|v: int| 0 <= v < s.len() && s[v] == x;
                if v < shorter.len() {
                    assert(shorter[v] == x);
                    assert(earlier.contains(x));
                    let w = choose|w: int| 0 <= w < earlier.len() && earlier[w] == x;
                    assert(all[w] == x);
                } else if !earlier.contains(x) {
                    assert(all[earlier.len() as int] == x);
                } else {
                    let w = choose|w: int| 0 <= w < earlier.len() && earlier[w] == x;
                    assert(all[w] == x);
                }
            }
        }
    }
}

} // verus!
