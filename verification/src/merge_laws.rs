//! What holds of every merge: nothing is lost, order is kept, and ties go to the left.
use crate::merge::{
    all_among, lens, merge_order, merged, occurrences, sorted, total_preorder,
    total_preorder_among, transitive, uses_up, weave,
};
use vstd::prelude::*;

verus! {

/// Counting over a concatenation adds up.
pub proof fn lemma_occurrences_add(s: Seq<u8>, t: Seq<u8>, x: u8)
    ensures
        occurrences(s + t, x) == occurrences(s, x) + occurrences(t, x),
    decreases t.len(),
{
    if t.len() == 0 {
        assert(s + t =~= s);
    } else {
        assert((s + t).drop_last() =~= s + t.drop_last());
        lemma_occurrences_add(s, t.drop_last(), x);
    }
}

/// Each place of `s` is counted once, on top of the places before it.
pub proof fn lemma_occurrences_step(s: Seq<u8>, p: int, x: u8)
    requires
        0 <= p < s.len(),
    ensures
        occurrences(s.take(p + 1), x) == occurrences(s.take(p), x) + if s[p] == x {
            1nat
        } else {
            0nat
        },
        occurrences(s.take(p + 1), x) <= occurrences(s, x),
{
    assert(s.take(p + 1).drop_last() =~= s.take(p));
    assert(s =~= s.take(p + 1) + s.skip(p + 1));
    lemma_occurrences_add(s.take(p + 1), s.skip(p + 1), x);
}

/// A run of one value.
pub proof fn lemma_occurrences_run(n: nat, v: u8, x: u8)
    ensures
        occurrences(Seq::new(n, |i: int| v), x) == if v == x {
            n
        } else {
            0
        },
    decreases n,
{
    if n > 0 {
        let shorter = (n - 1) as nat;
        assert(Seq::new(n, |i: int| v).drop_last() =~= Seq::new(shorter, |i: int| v));
        lemma_occurrences_run(shorter, v, x);
    }
}

/// A longer prefix counts at least as much.
pub proof fn lemma_occurrences_prefix(s: Seq<u8>, p: int, q: int, x: u8)
    requires
        0 <= p <= q <= s.len(),
    ensures
        occurrences(s.take(p), x) <= occurrences(s.take(q), x),
{
    assert(s.take(q) =~= s.take(p) + s.subrange(p, q));
    lemma_occurrences_add(s.take(p), s.subrange(p, q), x);
}

/// The order of a merge names each side once per element of it.
pub proof fn law_merge_takes_every_element<T>(a: Seq<T>, b: Seq<T>, le: spec_fn(T, T) -> bool)
    ensures
        uses_up(seq![a.len(), b.len()], merge_order(a, b, le)),
        merge_order(a, b, le).len() == a.len() + b.len(),
    decreases a.len() + b.len(),
{
    let order = merge_order(a, b, le);
    let sizes = seq![a.len(), b.len()];
    if a.len() == 0 {
        assert forall|j: u8| j < sizes.len() implies #[trigger] occurrences(order, j)
            == sizes[j as int] by {
            lemma_occurrences_run(b.len(), 1, j);
        }
    } else if b.len() == 0 {
        assert forall|j: u8| j < sizes.len() implies #[trigger] occurrences(order, j)
            == sizes[j as int] by {
            lemma_occurrences_run(a.len(), 0, j);
        }
    } else {
        let (x, a1, b1) = if le(a[0], b[0]) {
            (0u8, a.drop_first(), b)
        } else {
            (1u8, a, b.drop_first())
        };
        let rest = merge_order(a1, b1, le);
        law_merge_takes_every_element(a1, b1, le);
        assert(order == seq![x] + rest);
        assert forall|j: u8| j < sizes.len() implies #[trigger] occurrences(order, j)
            == sizes[j as int] by {
            lemma_occurrences_add(seq![x], rest, j);
            assert(seq![x].drop_last() =~= Seq::<u8>::empty());
            reveal_with_fuel(occurrences, 2);
            assert(occurrences(rest, j) == seq![a1.len(), b1.len()][j as int]);
        }
    }
}

/// Reading one element off a source and weaving the rest is weaving the whole.
proof fn lemma_weave_front<T>(sources: Seq<Seq<T>>, x: u8, rest: Seq<u8>)
    requires
        uses_up(lens(sources), seq![x] + rest),
    ensures
        weave(sources, seq![x] + rest) == seq![sources[x as int][0]] + weave(
            sources.update(x as int, sources[x as int].drop_first()),
            rest,
        ),
{
    let order = seq![x] + rest;
    let next = sources.update(x as int, sources[x as int].drop_first());
    assert(order[0] == x);
    let left = weave(sources, order);
    let right = seq![sources[x as int][0]] + weave(next, rest);
    assert forall|p: int| 0 <= p < order.len() implies left[p] == right[p] by {
        let y = order[p];
        if p == 0 {
            assert(order.take(0) =~= Seq::<u8>::empty());
        } else {
            assert(order.take(p) =~= seq![x] + rest.take(p - 1));
            lemma_occurrences_add(seq![x], rest.take(p - 1), y);
            reveal_with_fuel(occurrences, 2);
            assert(seq![x].drop_last() =~= Seq::<u8>::empty());
            lemma_occurrences_step(order, p, y);
            assert(occurrences(order, y) == lens(sources)[y as int]);
        }
    }
    assert(left =~= right);
}

/// A merge is its two sides woven along its order.
pub proof fn law_merge_is_weave<T>(a: Seq<T>, b: Seq<T>, le: spec_fn(T, T) -> bool)
    ensures
        merged(a, b, le) == weave(seq![a, b], merge_order(a, b, le)),
    decreases a.len() + b.len(),
{
    let order = merge_order(a, b, le);
    law_merge_takes_every_element(a, b, le);
    if a.len() == 0 || b.len() == 0 {
        let v = if a.len() == 0 {
            1u8
        } else {
            0u8
        };
        assert forall|p: int| 0 <= p < order.len() implies weave(seq![a, b], order)[p] == merged(
            a,
            b,
            le,
        )[p] by {
            assert(order.take(p) =~= Seq::new(p as nat, |i: int| v));
            lemma_occurrences_run(p as nat, v, v);
        }
        assert(weave(seq![a, b], order) =~= merged(a, b, le));
    } else {
        let (x, a1, b1) = if le(a[0], b[0]) {
            (0u8, a.drop_first(), b)
        } else {
            (1u8, a, b.drop_first())
        };
        law_merge_is_weave(a1, b1, le);
        assert(lens(seq![a, b]) =~= seq![a.len(), b.len()]);
        lemma_weave_front(seq![a, b], x, merge_order(a1, b1, le));
        assert(seq![a, b].update(x as int, seq![a, b][x as int].drop_first()) =~= seq![a1, b1]);
    }
}

/// A merge holds the elements of both sides, each as often as they hold it.
pub proof fn law_merge_keeps_elements<T>(a: Seq<T>, b: Seq<T>, le: spec_fn(T, T) -> bool)
    ensures
        merged(a, b, le).to_multiset() == a.to_multiset().add(b.to_multiset()),
        merged(a, b, le).len() == a.len() + b.len(),
    decreases a.len() + b.len(),
{
    broadcast use vstd::seq_lib::group_to_multiset_ensures;

    if a.len() == 0 {
        assert(a.to_multiset() =~= vstd::multiset::Multiset::empty());
        assert(a.to_multiset().add(b.to_multiset()) =~= b.to_multiset());
    } else if b.len() == 0 {
        assert(b.to_multiset() =~= vstd::multiset::Multiset::empty());
        assert(a.to_multiset().add(b.to_multiset()) =~= a.to_multiset());
    } else {
        let (x, a1, b1) = if le(a[0], b[0]) {
            (a[0], a.drop_first(), b)
        } else {
            (b[0], a, b.drop_first())
        };
        law_merge_keeps_elements(a1, b1, le);
        vstd::seq_lib::lemma_multiset_commutative(seq![x], merged(a1, b1, le));
        vstd::seq_lib::lemma_multiset_commutative(seq![a[0]], a.drop_first());
        vstd::seq_lib::lemma_multiset_commutative(seq![b[0]], b.drop_first());
        assert(seq![a[0]] + a.drop_first() =~= a);
        assert(seq![b[0]] + b.drop_first() =~= b);
        assert(merged(a, b, le).to_multiset() =~= a.to_multiset().add(b.to_multiset()));
    }
}

/// Every element of a merge comes from one of its sides.
proof fn lemma_merged_member<T>(a: Seq<T>, b: Seq<T>, le: spec_fn(T, T) -> bool, i: int)
    requires
        0 <= i < merged(a, b, le).len(),
    ensures
        a.contains(merged(a, b, le)[i]) || b.contains(merged(a, b, le)[i]),
{
    broadcast use vstd::seq_lib::group_to_multiset_ensures;

    let x = merged(a, b, le)[i];
    law_merge_keeps_elements(a, b, le);
    assert(merged(a, b, le).contains(x));
    assert(merged(a, b, le).to_multiset().count(x) > 0);
    assert(a.to_multiset().count(x) > 0 || b.to_multiset().count(x) > 0);
}

/// Merging sorted sides gives a sorted sequence.
pub proof fn law_merge_is_sorted<T>(a: Seq<T>, b: Seq<T>, le: spec_fn(T, T) -> bool)
    requires
        total_preorder(le),
        sorted(a, le),
        sorted(b, le),
    ensures
        sorted(merged(a, b, le), le),
{
    law_merge_is_sorted_among(a, b, le, |x: T| true);
}

/// Merging sorted sides gives a sorted sequence also where only the values they hold are ranked
/// totally.
pub proof fn law_merge_is_sorted_among<T>(
    a: Seq<T>,
    b: Seq<T>,
    le: spec_fn(T, T) -> bool,
    among: spec_fn(T) -> bool,
)
    requires
        total_preorder_among(le, among),
        all_among(a, among),
        all_among(b, among),
        sorted(a, le),
        sorted(b, le),
    ensures
        sorted(merged(a, b, le), le),
        all_among(merged(a, b, le), among),
    decreases a.len() + b.len(),
{
    if a.len() > 0 && b.len() > 0 {
        let (x, a1, b1) = if le(a[0], b[0]) {
            (a[0], a.drop_first(), b)
        } else {
            (b[0], a, b.drop_first())
        };
        law_merge_is_sorted_among(a1, b1, le, among);
        let rest = merged(a1, b1, le);
        let whole = merged(a, b, le);
        assert(whole == seq![x] + rest);
        assert(among(a[0]) && among(b[0]));
        assert(le(a[0], b[0]) || le(b[0], a[0]));
        assert(le(a[0], a[0]));
        assert(le(b[0], b[0]));
        assert(le(x, a[0]) && le(x, b[0]));
        assert forall|i: int, j: int| 0 <= i < j < whole.len() implies le(
            #[trigger] whole[i],
            #[trigger] whole[j],
        ) by {
            assert(whole[j] == rest[j - 1]);
            if i == 0 {
                lemma_merged_member(a1, b1, le, j - 1);
                let y = whole[j];
                assert(among(rest[j - 1]));
                if a1.contains(y) {
                    let q = choose|q: int| 0 <= q < a1.len() && a1[q] == y;
                    let r = if a1.len() < a.len() {
                        q + 1
                    } else {
                        q
                    };
                    assert(a[r] == y);
                    assert(r == 0 || le(a[0], a[r]));
                    assert(le(x, y));
                } else {
                    let q = choose|q: int| 0 <= q < b1.len() && b1[q] == y;
                    let r = if b1.len() < b.len() {
                        q + 1
                    } else {
                        q
                    };
                    assert(b[r] == y);
                    assert(r == 0 || le(b[0], b[r]));
                    assert(le(x, y));
                }
            } else {
                assert(whole[i] == rest[i - 1]);
            }
        }
        assert forall|i: int| 0 <= i < whole.len() implies among(#[trigger] whole[i]) by {
            if i > 0 {
                assert(whole[i] == rest[i - 1]);
            }
        }
    }
}

/// Left is preferred: an element of `b` goes before an element of `a` only where the element of
/// `a` is not at or before it.
pub proof fn law_merge_prefers_left<T>(
    a: Seq<T>,
    b: Seq<T>,
    le: spec_fn(T, T) -> bool,
    p: int,
    q: int,
)
    requires
        transitive(le),
        sorted(a, le),
        0 <= p < q < merge_order(a, b, le).len(),
        merge_order(a, b, le)[p] == 1,
        merge_order(a, b, le)[q] == 0,
    ensures
        !le(merged(a, b, le)[q], merged(a, b, le)[p]),
    decreases a.len() + b.len(),
{
    law_merge_takes_every_element(a, b, le);
    law_merge_keeps_elements(a, b, le);
    if a.len() > 0 && b.len() > 0 {
        let (x, a1, b1) = if le(a[0], b[0]) {
            (0u8, a.drop_first(), b)
        } else {
            (1u8, a, b.drop_first())
        };
        let order = merge_order(a, b, le);
        assert(order == seq![x] + merge_order(a1, b1, le));
        if p > 0 {
            assert(order[p] == merge_order(a1, b1, le)[p - 1]);
            assert(order[q] == merge_order(a1, b1, le)[q - 1]);
            law_merge_prefers_left(a1, b1, le, p - 1, q - 1);
            assert(merged(a, b, le)[p] == merged(a1, b1, le)[p - 1]);
            assert(merged(a, b, le)[q] == merged(a1, b1, le)[q - 1]);
        } else {
            law_merge_is_weave(a, b, le);
            let y = merged(a, b, le)[q];
            let i = occurrences(order.take(q), 0) as int;
            lemma_occurrences_step(order, q, 0);
            assert(occurrences(order, 0) == seq![a.len(), b.len()][0]);
            assert(y == a[i]);
            assert(!le(a[0], b[0]));
            if le(y, b[0]) {
                assert(i == 0 || le(a[0], a[i]));
                assert(le(a[0], b[0]));
            }
        }
    } else if a.len() == 0 {
        assert(merge_order(a, b, le)[q] == 1);
    } else {
        assert(merge_order(a, b, le)[p] == 0);
    }
}

/// A weave reads every element of every source, and reads each source front to back.
pub proof fn law_weave_reads_in_order<T>(sources: Seq<Seq<T>>, order: Seq<u8>, j: u8, i: int)
    requires
        uses_up(lens(sources), order),
        j < sources.len(),
        0 <= i < sources[j as int].len(),
    ensures
        exists|p: int|
            {
                &&& 0 <= p < order.len()
                &&& #[trigger] order[p] == j
                &&& occurrences(order.take(p), j) == i
                &&& weave(sources, order)[p] == sources[j as int][i]
            },
{
    assert(occurrences(order, j) == lens(sources)[j as int]);
    assert(order.take(order.len() as int) =~= order);
    let p = lemma_place_of(order, j, i, order.len() as int);
    assert(order[p] == j);
}

/// Where the `i`-th occurrence of `x` stands.
proof fn lemma_place_of(order: Seq<u8>, x: u8, i: int, end: int) -> (p: int)
    requires
        0 <= end <= order.len(),
        0 <= i < occurrences(order.take(end), x),
    ensures
        0 <= p < end,
        order[p] == x,
        occurrences(order.take(p), x) == i,
    decreases end,
{
    if end == 0 {
        assert(order.take(0) =~= Seq::<u8>::empty());
        0
    } else {
        lemma_occurrences_step(order, end - 1, x);
        if i < occurrences(order.take(end - 1), x) {
            lemma_place_of(order, x, i, end - 1)
        } else {
            end - 1
        }
    }
}

} // verus!
