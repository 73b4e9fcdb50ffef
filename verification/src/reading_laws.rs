//! What a merge takes next, and where a merged sequence has its elements from, said by counting
//! what was taken before.
use crate::heap::{queued, sooner, HeapEntry};
use crate::merge::{merge_order, merged, occurrences, sorted, uses_up, weave};
use crate::merge_laws::{
    law_merge_is_weave, law_merge_takes_every_element, lemma_occurrences_add,
    lemma_occurrences_run, lemma_occurrences_step,
};
use crate::merge_many::total;
use vstd::prelude::*;

verus! {

/// Occurrences are counted one by one.
pub proof fn law_occurrences_are_counted(s: Seq<u8>, x: u8)
    ensures
        occurrences(s, x) == s.to_multiset().count(x),
        occurrences(s, x) == s.filter(|y: u8| y == x).len(),
    decreases s.len(),
{
    broadcast use vstd::seq_lib::group_to_multiset_ensures;

    let f = |y: u8| y == x;
    reveal(Seq::filter);
    if s.len() > 0 {
        law_occurrences_are_counted(s.drop_last(), x);
        assert(s =~= s.drop_last().push(s.last()));
        assert(s.to_multiset() =~= s.drop_last().to_multiset().insert(s.last()));
    } else {
        assert(s.to_multiset() =~= vstd::multiset::Multiset::empty());
    }
}

/// Sources read along an order give one element per place: in place `p`, of the source that the
/// order names there, the element after those that the order took of it before.
pub proof fn law_weave_takes_the_next_unread<T>(sources: Seq<Seq<T>>, order: Seq<u8>, p: int)
    requires
        0 <= p < order.len(),
    ensures
        weave(sources, order).len() == order.len(),
        weave(sources, order)[p] == sources[order[p] as int][order.take(p).to_multiset().count(
            order[p],
        ) as int],
{
    law_occurrences_are_counted(order.take(p), order[p]);
}

/// An order uses sources up where it names nothing else, and each of them as often as it has
/// elements.
pub proof fn law_used_up_sources_are_read_to_the_end(sizes: Seq<nat>, order: Seq<u8>)
    requires
        sizes.len() <= 256,
    ensures
        uses_up(sizes, order) <==> {
            &&& forall|p: int| 0 <= p < order.len() ==> (#[trigger] order[p]) < sizes.len()
            &&& forall|k: int|
                0 <= k < sizes.len() ==> order.to_multiset().count(k as u8) == #[trigger] sizes[k]
        },
{
    assert forall|x: u8| #[trigger] occurrences(order, x) == order.to_multiset().count(x) by {
        law_occurrences_are_counted(order, x);
    }
    if uses_up(sizes, order) {
        assert forall|k: int| 0 <= k < sizes.len() implies order.to_multiset().count(k as u8)
            == #[trigger] sizes[k] by {
            assert(occurrences(order, k as u8) == sizes[(k as u8) as int]);
        }
    }
    if (forall|p: int| 0 <= p < order.len() ==> (#[trigger] order[p]) < sizes.len()) && (forall|
        k: int,
    |
        0 <= k < sizes.len() ==> order.to_multiset().count(k as u8) == #[trigger] sizes[k]) {
        assert forall|j: u8| j < sizes.len() implies #[trigger] occurrences(order, j)
            == sizes[j as int] by {
            assert(order.to_multiset().count((j as int) as u8) == sizes[j as int]);
        }
    }
}

/// A sequence is sorted where every element is at or before each one after it.
pub proof fn law_sorted_elements_are_in_order<T>(s: Seq<T>, le: spec_fn(T, T) -> bool)
    ensures
        sorted(s, le) <==> forall|i: int, j: int|
            0 <= i < j < s.len() ==> le(#[trigger] s[i], #[trigger] s[j]),
{
}

/// Of a queue the entry that comes out first is the last one, and it comes out before all others.
pub proof fn law_the_queue_gives_the_soonest<K: Ord>(entries: Seq<HeapEntry<K>>, i: int)
    requires
        queued(entries),
        0 <= i < entries.len() - 1,
    ensures
        sooner(entries[entries.len() - 1], entries[i]),
        queued(entries.take(entries.len() - 1)),
{
}

/// The elements of all sources are added up one source after the other.
pub proof fn law_total_adds_up(sizes: Seq<nat>, n: nat)
    ensures
        total(Seq::<nat>::empty()) == 0,
        total(sizes.push(n)) == total(sizes) + n,
        total(seq![n]) == n,
{
    assert(sizes.push(n).drop_last() =~= sizes);
    assert(seq![n].drop_last() =~= Seq::<nat>::empty());
    reveal_with_fuel(total, 2);
}

/// In every place a merge of two sides looks at the first element of each that it has not taken.
/// It takes that of `a` where `le` puts it at or before that of `b`, and else that of `b`; where
/// only one side has one left, it takes that. This holds of any two sides, sorted or not.
pub proof fn law_merge_takes_a_head<T>(
    a: Seq<T>,
    b: Seq<T>,
    le: spec_fn(T, T) -> bool,
    p: int,
)
    requires
        0 <= p < merge_order(a, b, le).len(),
    ensures
        ({
            let order = merge_order(a, b, le);
            let i = order.take(p).to_multiset().count(0) as int;
            let j = order.take(p).to_multiset().count(1) as int;
            &&& order.len() == a.len() + b.len()
            &&& i + j == p
            &&& i <= a.len() && j <= b.len()
            &&& order[p] == 0 || order[p] == 1
            &&& order[p] == 0 <==> i < a.len() && (j == b.len() || le(a[i], b[j]))
            &&& merged(a, b, le).len() == order.len()
            &&& merged(a, b, le)[p] == if order[p] == 0 {
                a[i]
            } else {
                b[j]
            }
        }),
{
    let order = merge_order(a, b, le);
    law_occurrences_are_counted(order.take(p), 0);
    law_occurrences_are_counted(order.take(p), 1);
    law_merge_takes_every_element(a, b, le);
    law_merge_is_weave(a, b, le);
    lemma_takes_a_head(a, b, le, p);
    lemma_occurrences_step(order, p, order[p]);
    assert(seq![a, b][0] == a && seq![a, b][1] == b);
}

proof fn lemma_takes_a_head<T>(a: Seq<T>, b: Seq<T>, le: spec_fn(T, T) -> bool, p: int)
    requires
        0 <= p < merge_order(a, b, le).len(),
    ensures
        ({
            let order = merge_order(a, b, le);
            let i = occurrences(order.take(p), 0) as int;
            let j = occurrences(order.take(p), 1) as int;
            &&& i + j == p
            &&& i <= a.len() && j <= b.len()
            &&& order[p] == 0 || order[p] == 1
            &&& order[p] == 0 <==> i < a.len() && (j == b.len() || le(a[i], b[j]))
        }),
    decreases a.len() + b.len(),
{
    let order = merge_order(a, b, le);
    if a.len() == 0 || b.len() == 0 {
        let v = if a.len() == 0 {
            1u8
        } else {
            0u8
        };
        assert(order.take(p) =~= Seq::new(p as nat, |i: int| v));
        lemma_occurrences_run(p as nat, v, 0);
        lemma_occurrences_run(p as nat, v, 1);
    } else {
        let (x, a1, b1) = if le(a[0], b[0]) {
            (0u8, a.drop_first(), b)
        } else {
            (1u8, a, b.drop_first())
        };
        let rest = merge_order(a1, b1, le);
        assert(order == seq![x] + rest);
        if p == 0 {
            assert(order.take(0) =~= Seq::<u8>::empty());
        } else {
            lemma_takes_a_head(a1, b1, le, p - 1);
            assert(order.take(p) =~= seq![x] + rest.take(p - 1));
            lemma_occurrences_add(seq![x], rest.take(p - 1), 0);
            lemma_occurrences_add(seq![x], rest.take(p - 1), 1);
            assert(seq![x].drop_last() =~= Seq::<u8>::empty());
            reveal_with_fuel(occurrences, 2);
        }
    }
}

} // verus!
