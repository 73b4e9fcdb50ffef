//! What holds of every merge of many inputs.
use crate::heap::{key_le, key_order, lawful, lemma_key_order, lemma_sooner};
use crate::merge::{lens, occurrences, sorted, weave};
use crate::merge_laws::lemma_occurrences_prefix;
use crate::merge_many::{
    comes_next, entry_of, has_more, head, is_many_order, keeps_on, lemma_uses_up_len, takes,
};
use vstd::prelude::*;

verus! {

/// At each place the element taken is one of an input that has one left, and no input has a
/// lesser key next.
pub proof fn law_least_key_is_taken<K: Ord>(keys: Seq<Seq<K>>, order: Seq<u8>, p: int, j: int)
    requires
        lawful::<K>(),
        keys.len() <= 256,
        is_many_order(keys, order),
        0 <= p < order.len(),
    ensures
        has_more(keys, order.take(p), order[p] as int),
        weave(keys, order)[p] == head(keys, order.take(p), order[p] as int),
        has_more(keys, order.take(p), j) ==> key_le(
            weave(keys, order)[p],
            head(keys, order.take(p), j),
        ),
{
    let done = order.take(p);
    let i = order[p] as int;
    lemma_key_order::<K>();
    assert(takes(keys, done, i));
    if has_more(keys, done, j) && j != i {
        if done.len() > 0 && keeps_on(keys, done, done.last() as int) {
        } else {
            assert(comes_next(keys, done, i));
            lemma_sooner(entry_of(keys, done, i), entry_of(keys, done, j), entry_of(keys, done, i));
        }
    }
}

/// Merging sorted inputs gives sorted keys.
pub proof fn law_many_merge_is_sorted<K: Ord>(keys: Seq<Seq<K>>, order: Seq<u8>)
    requires
        lawful::<K>(),
        keys.len() <= 256,
        is_many_order(keys, order),
        forall|i: int| 0 <= i < keys.len() ==> sorted(#[trigger] keys[i], key_order::<K>()),
    ensures
        sorted(weave(keys, order), key_order::<K>()),
{
    let out = weave(keys, order);
    let le = key_order::<K>();
    lemma_key_order::<K>();
    assert forall|p: int, q: int| 0 <= p < q < out.len() implies le(
        #[trigger] out[p],
        #[trigger] out[q],
    ) by {
        let j = order[q] as int;
        law_least_key_is_taken(keys, order, q, j);
        lemma_occurrences_prefix(order, p, q, order[q]);
        assert(has_more(keys, order.take(p), j));
        law_least_key_is_taken(keys, order, p, j);
        let early = occurrences(order.take(p), order[q]) as int;
        let late = occurrences(order.take(q), order[q]) as int;
        assert(sorted(keys[j], le));
        if early < late {
            assert(le(keys[j][early], keys[j][late]));
        }
        assert(le(out[p], keys[j][early]));
    }
}

/// There is one order in which a merge takes its elements.
pub proof fn law_many_order_is_unique<K: Ord>(keys: Seq<Seq<K>>, a: Seq<u8>, b: Seq<u8>)
    requires
        lawful::<K>(),
        keys.len() <= 256,
        is_many_order(keys, a),
        is_many_order(keys, b),
    ensures
        a == b,
{
    lemma_uses_up_len(lens(keys), a);
    lemma_uses_up_len(lens(keys), b);
    lemma_same_prefix(keys, a, b, a.len() as int);
    assert(a.take(a.len() as int) =~= a);
    assert(b.take(b.len() as int) =~= b);
}

proof fn lemma_same_prefix<K: Ord>(keys: Seq<Seq<K>>, a: Seq<u8>, b: Seq<u8>, n: int)
    requires
        lawful::<K>(),
        keys.len() <= 256,
        is_many_order(keys, a),
        is_many_order(keys, b),
        a.len() == b.len(),
        0 <= n <= a.len(),
    ensures
        a.take(n) == b.take(n),
    decreases n,
{
    if n > 0 {
        let p = n - 1;
        lemma_same_prefix(keys, a, b, p);
        let done = a.take(p);
        let i = a[p] as int;
        let j = b[p] as int;
        assert(takes(keys, done, i));
        assert(takes(keys, b.take(p), j));
        if i != j {
            assert(has_more(keys, done, i) && has_more(keys, done, j));
            lemma_sooner(entry_of(keys, done, i), entry_of(keys, done, j), entry_of(keys, done, i));
        }
        assert(a.take(n) =~= done.push(a[p]));
        assert(b.take(n) =~= done.push(b[p]));
    } else {
        assert(a.take(0) =~= b.take(0));
    }
}

} // verus!
