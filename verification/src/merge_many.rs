//! Merging many sorted inputs at once, over a queue of their next keys.
use crate::heap::{
    key_beyond, key_le, key_order, lawful, lemma_key_order, lemma_sooner, queued, sooner,
    HeapEntry, MergeHeap,
};
use crate::merge::{lens, occurrences, uses_up};
use vstd::prelude::*;

verus! {

/// Input `i` has an element that `done` has not taken.
pub open spec fn has_more<K>(keys: Seq<Seq<K>>, done: Seq<u8>, i: int) -> bool {
    0 <= i < keys.len() && occurrences(done, i as u8) < keys[i].len()
}

/// The first key of input `i` that `done` has not taken.
pub open spec fn head<K>(keys: Seq<Seq<K>>, done: Seq<u8>, i: int) -> K {
    keys[i][occurrences(done, i as u8) as int]
}

/// What stands for input `i` in the queue.
pub open spec fn entry_of<K>(keys: Seq<Seq<K>>, done: Seq<u8>, i: int) -> HeapEntry<K> {
    HeapEntry { input_idx: i as usize, key: head(keys, done, i) }
}

/// Input `i` goes on: it has an element left, and no other input has a lesser key next.
pub open spec fn keeps_on<K: Ord>(keys: Seq<Seq<K>>, done: Seq<u8>, i: int) -> bool {
    &&& has_more(keys, done, i)
    &&& forall|j: int|
        j != i && #[trigger] has_more(keys, done, j) ==> key_le(
            head(keys, done, i),
            head(keys, done, j),
        )
}

/// Input `i` comes next: of all inputs it has the least key next, and it is the earliest of those
/// that have that key.
pub open spec fn comes_next<K: Ord>(keys: Seq<Seq<K>>, done: Seq<u8>, i: int) -> bool {
    &&& has_more(keys, done, i)
    &&& forall|j: int|
        j != i && #[trigger] has_more(keys, done, j) ==> sooner(
            entry_of(keys, done, i),
            entry_of(keys, done, j),
        )
}

/// After `done`, the element taken is that of input `i`: the input last taken from goes on as
/// long as it can, and then the one that comes next.
pub open spec fn takes<K: Ord>(keys: Seq<Seq<K>>, done: Seq<u8>, i: int) -> bool {
    if done.len() > 0 && keeps_on(keys, done, done.last() as int) {
        i == done.last()
    } else {
        comes_next(keys, done, i)
    }
}

/// `order` is the order in which the merge of all inputs takes their elements.
pub open spec fn is_many_order<K: Ord>(keys: Seq<Seq<K>>, order: Seq<u8>) -> bool {
    &&& uses_up(lens(keys), order)
    &&& forall|p: int|
        0 <= p < order.len() ==> takes(keys, #[trigger] order.take(p), order[p] as int)
}

/// The number of elements of all inputs.
pub open spec fn total(sizes: Seq<nat>) -> nat
    decreases sizes.len(),
{
    if sizes.len() == 0 {
        0
    } else {
        total(sizes.drop_last()) + sizes.last()
    }
}

/// The queue holds what stands for each input that has elements left, but for input `skip`.
spec fn stands_for<K>(
    entries: Seq<HeapEntry<K>>,
    keys: Seq<Seq<K>>,
    done: Seq<u8>,
    skip: int,
) -> bool {
    &&& forall|q: int|
        0 <= q < entries.len() ==> {
            let i = (#[trigger] entries[q]).input_idx as int;
            &&& i != skip
            &&& has_more(keys, done, i)
            &&& entries[q] == entry_of(keys, done, i)
        }
    &&& forall|i: int|
        i != skip && #[trigger] has_more(keys, done, i) ==> exists|q: int|
            0 <= q < entries.len() && (#[trigger] entries[q]).input_idx == i
}

/// Taking one more element of input `i` moves that input on, and no other.
proof fn lemma_taken<K>(keys: Seq<Seq<K>>, done: Seq<u8>, i: u8)
    ensures
        forall|j: int|
            0 <= j < 256 ==> #[trigger] occurrences(done.push(i), j as u8) == occurrences(
                done,
                j as u8,
            ) + if j == i {
                1nat
            } else {
                0nat
            },
{
    assert(done.push(i).drop_last() =~= done);
}

/// The key of the queue's first entry is at or before the next key of every input in the queue.
proof fn lemma_first_is_least<K: Ord>(
    entries: Seq<HeapEntry<K>>,
    keys: Seq<Seq<K>>,
    done: Seq<u8>,
    skip: int,
)
    requires
        lawful::<K>(),
        queued(entries),
        stands_for(entries, keys, done, skip),
        entries.len() > 0,
        keys.len() <= 256,
    ensures
        forall|j: int|
            j != skip && #[trigger] has_more(keys, done, j) ==> key_le(
                entries.last().key,
                head(keys, done, j),
            ),
        skip < 0 ==> comes_next(keys, done, entries.last().input_idx as int),
{
    lemma_key_order::<K>();
    let first = entries.last();
    assert(entries[entries.len() - 1] == first);
    assert forall|j: int| j != skip && #[trigger] has_more(keys, done, j) implies key_le(
        first.key,
        head(keys, done, j),
    ) && (j != first.input_idx ==> sooner(first, entry_of(keys, done, j))) by {
        let q = choose|q: int| 0 <= q < entries.len() && (#[trigger] entries[q]).input_idx == j;
        assert(entries[q] == entry_of(keys, done, j));
        if q < entries.len() - 1 {
            assert(sooner(first, entries[q]));
            lemma_sooner(first, entries[q], first);
        }
    }
}

/// Whether input `i` goes on is told by the queue's first entry.
proof fn lemma_goes_on<K: Ord>(
    entries: Seq<HeapEntry<K>>,
    keys: Seq<Seq<K>>,
    done: Seq<u8>,
    i: int,
)
    requires
        lawful::<K>(),
        queued(entries),
        stands_for(entries, keys, done, i),
        has_more(keys, done, i),
        keys.len() <= 256,
    ensures
        keeps_on(keys, done, i) <==> entries.len() == 0 || key_le(
            head(keys, done, i),
            entries.last().key,
        ),
{
    if entries.len() > 0 {
        lemma_key_order::<K>();
        let le = key_order::<K>();
        let first = entries.last();
        assert(entries[entries.len() - 1] == first);
        lemma_first_is_least(entries, keys, done, i);
        assert forall|j: int|
            j != i && #[trigger] has_more(keys, done, j) && key_le(
                head(keys, done, i),
                first.key,
            ) implies key_le(head(keys, done, i), head(keys, done, j)) by {
            assert(le(head(keys, done, i), first.key));
            assert(le(first.key, head(keys, done, j)));
        }
    } else {
        assert forall|j: int| j != i && #[trigger] has_more(keys, done, j) implies false by {
            assert(exists|q: int| 0 <= q < entries.len() && (#[trigger] entries[q]).input_idx == j);
        }
    }
}

/// One more step of the order.
proof fn lemma_step<K: Ord>(keys: Seq<Seq<K>>, done: Seq<u8>, i: u8)
    requires
        forall|p: int|
            0 <= p < done.len() ==> takes(keys, #[trigger] done.take(p), done[p] as int),
        takes(keys, done, i as int),
    ensures
        forall|p: int|
            0 <= p < done.push(i).len() ==> takes(
                keys,
                #[trigger] done.push(i).take(p),
                done.push(i)[p] as int,
            ),
{
    assert forall|p: int| 0 <= p < done.push(i).len() implies takes(
        keys,
        #[trigger] done.push(i).take(p),
        done.push(i)[p] as int,
    ) by {
        if p < done.len() {
            assert(done.push(i).take(p) =~= done.take(p));
        } else {
            assert(done.push(i).take(p) =~= done);
        }
    }
}

/// `done` takes elements of the inputs only, and of none more than it has.
spec fn within<K>(keys: Seq<Seq<K>>, done: Seq<u8>) -> bool {
    &&& forall|p: int| 0 <= p < done.len() ==> (#[trigger] done[p]) < keys.len()
    &&& forall|j: int|
        0 <= j < keys.len() ==> #[trigger] occurrences(done, j as u8) <= keys[j].len()
}

proof fn lemma_within<K>(keys: Seq<Seq<K>>, done: Seq<u8>, i: int)
    requires
        keys.len() <= 256,
        within(keys, done),
        has_more(keys, done, i),
    ensures
        within(keys, done.push(i as u8)),
{
    lemma_taken(keys, done, i as u8);
}

/// How often each of the first `n` values occurs.
spec fn counts(order: Seq<u8>, n: nat) -> Seq<nat> {
    Seq::new(n, |j: int| occurrences(order, j as u8))
}

proof fn lemma_total_counts(order: Seq<u8>, n: nat)
    requires
        n <= 256,
        forall|p: int| 0 <= p < order.len() ==> (#[trigger] order[p]) < n,
    ensures
        total(counts(order, n)) == order.len(),
    decreases order.len(),
{
    if order.len() == 0 {
        lemma_total_zero(n);
        assert(counts(order, n) =~= Seq::new(n, |j: int| 0nat));
    } else {
        let rest = order.drop_last();
        let i = order.last() as int;
        lemma_total_counts(rest, n);
        assert(order[order.len() - 1] < n);
        assert(counts(order, n) =~= counts(rest, n).update(i, counts(rest, n)[i] + 1));
        lemma_total_update(counts(rest, n), i, counts(rest, n)[i] + 1);
    }
}

proof fn lemma_total_zero(n: nat)
    ensures
        total(Seq::new(n, |j: int| 0nat)) == 0,
    decreases n,
{
    if n > 0 {
        let m = (n - 1) as nat;
        assert(Seq::new(n, |j: int| 0nat).drop_last() =~= Seq::new(m, |j: int| 0nat));
        lemma_total_zero(m);
    }
}

proof fn lemma_total_update(sizes: Seq<nat>, i: int, x: nat)
    requires
        0 <= i < sizes.len(),
    ensures
        total(sizes.update(i, x)) == total(sizes) - sizes[i] + x,
    decreases sizes.len(),
{
    if i == sizes.len() - 1 {
        assert(sizes.update(i, x).drop_last() =~= sizes.drop_last());
    } else {
        assert(sizes.update(i, x).drop_last() =~= sizes.drop_last().update(i, x));
        lemma_total_update(sizes.drop_last(), i, x);
    }
}

proof fn lemma_total_le(a: Seq<nat>, b: Seq<nat>)
    requires
        a.len() == b.len(),
        forall|i: int| 0 <= i < a.len() ==> a[i] <= b[i],
    ensures
        total(a) <= total(b),
    decreases a.len(),
{
    if a.len() > 0 {
        lemma_total_le(a.drop_last(), b.drop_last());
    }
}

proof fn lemma_within_total<K>(keys: Seq<Seq<K>>, done: Seq<u8>)
    requires
        keys.len() <= 256,
        within(keys, done),
    ensures
        done.len() <= total(lens(keys)),
{
    lemma_total_counts(done, keys.len());
    lemma_total_le(counts(done, keys.len()), lens(keys));
}

/// An order that uses up the inputs is as long as they are together.
pub proof fn lemma_uses_up_len(sizes: Seq<nat>, order: Seq<u8>)
    requires
        sizes.len() <= 256,
        uses_up(sizes, order),
    ensures
        order.len() == total(sizes),
{
    lemma_total_counts(order, sizes.len());
    assert forall|j: int| 0 <= j < sizes.len() implies counts(order, sizes.len())[j]
        == sizes[j] by {
        assert(occurrences(order, j as u8) == sizes[(j as u8) as int]);
    }
    assert(counts(order, sizes.len()) =~= sizes);
}

/// Without its first entry the queue stands for all other inputs, also once that input moved on.
proof fn lemma_moved_on<K: Ord>(
    before: Seq<HeapEntry<K>>,
    after: Seq<HeapEntry<K>>,
    keys: Seq<Seq<K>>,
    done: Seq<u8>,
    i: int,
)
    requires
        lawful::<K>(),
        keys.len() <= 256,
        before.len() > 0,
        queued(before),
        stands_for(before, keys, done, -1),
        after == before.drop_last(),
        i == before.last().input_idx,
    ensures
        stands_for(after, keys, done.push(i as u8), i),
{
    let next = done.push(i as u8);
    lemma_taken(keys, done, i as u8);
    assert(before[before.len() - 1].input_idx == i);
    assert forall|q: int| 0 <= q < after.len() implies {
        let j = (#[trigger] after[q]).input_idx as int;
        &&& j != i
        &&& has_more(keys, next, j)
        &&& after[q] == entry_of(keys, next, j)
    } by {
        assert(after[q] == before[q]);
        assert(sooner(before[before.len() - 1], before[q]));
        if before[q].input_idx == i {
            lemma_sooner(before[q], before[q], before[q]);
        }
    }
    assert forall|j: int| j != i && #[trigger] has_more(keys, next, j) implies exists|q: int|
        0 <= q < after.len() && (#[trigger] after[q]).input_idx == j by {
        assert(has_more(keys, done, j));
        let q = choose|q: int| 0 <= q < before.len() && (#[trigger] before[q]).input_idx == j;
        assert(after[q] == before[q]);
    }
}

/// Taking from an input that is not in the queue leaves the queue as it should be.
proof fn lemma_still_stands<K: Ord>(
    entries: Seq<HeapEntry<K>>,
    keys: Seq<Seq<K>>,
    done: Seq<u8>,
    i: int,
)
    requires
        keys.len() <= 256,
        0 <= i < keys.len(),
        stands_for(entries, keys, done, i),
    ensures
        stands_for(entries, keys, done.push(i as u8), i),
{
    let next = done.push(i as u8);
    lemma_taken(keys, done, i as u8);
    assert forall|j: int| j != i && #[trigger] has_more(keys, next, j) implies exists|q: int|
        0 <= q < entries.len() && (#[trigger] entries[q]).input_idx == j by {
        assert(has_more(keys, done, j));
    }
}

/// With the entry of input `i` put back, the queue stands for all inputs.
proof fn lemma_put_back<K: Ord>(
    before: Seq<HeapEntry<K>>,
    after: Seq<HeapEntry<K>>,
    keys: Seq<Seq<K>>,
    done: Seq<u8>,
    i: int,
)
    requires
        keys.len() <= 256,
        has_more(keys, done, i),
        stands_for(before, keys, done, i),
        exists|p: int|
            0 <= p <= before.len() && after == #[trigger] before.insert(
                p,
                entry_of(keys, done, i),
            ),
    ensures
        stands_for(after, keys, done, -1),
{
    let p = choose|p: int|
        0 <= p <= before.len() && after == #[trigger] before.insert(p, entry_of(keys, done, i));
    assert forall|q: int| 0 <= q < after.len() implies {
        let j = (#[trigger] after[q]).input_idx as int;
        &&& j != -1
        &&& has_more(keys, done, j)
        &&& after[q] == entry_of(keys, done, j)
    } by {
        if q < p {
            assert(after[q] == before[q]);
        } else if q > p {
            assert(after[q] == before[q - 1]);
        }
    }
    assert forall|j: int| j != -1 && #[trigger] has_more(keys, done, j) implies exists|q: int|
        0 <= q < after.len() && (#[trigger] after[q]).input_idx == j by {
        if j == i {
            assert(after[p].input_idx == j);
        } else {
            let q = choose|q: int| 0 <= q < before.len() && (#[trigger] before[q]).input_idx == j;
            if q < p {
                assert(after[q] == before[q]);
            } else {
                assert(after[q + 1] == before[q]);
            }
        }
    }
}

/// Produces the order in which a merge of all `keys` takes its elements.
pub fn many_merge_indicator<K: Ord + Copy>(keys: &Vec<Vec<K>>) -> (out: Vec<u8>)
    requires
        lawful::<K>(),
        keys@.len() <= 256,
        forall|i: int| 0 <= i < keys@.len() ==> (#[trigger] keys@[i])@.len() > 0,
    ensures
        is_many_order(keys@.map_values(|v: Vec<K>| v@), out@),
{
    let ghost ks = keys@.map_values(|v: Vec<K>| v@);
    let mut out: Vec<u8> = Vec::new();
    let mut positions: Vec<usize> = Vec::with_capacity(keys.len());
    let mut heap: MergeHeap<K> = MergeHeap::with_capacity(keys.len());
    let ghost start = Seq::<u8>::empty();
    let mut input_idx: usize = 0;
    while input_idx < keys.len()
        invariant
            lawful::<K>(),
            keys@.len() <= 256,
            ks == keys@.map_values(|v: Vec<K>| v@),
            forall|i: int| 0 <= i < keys@.len() ==> (#[trigger] keys@[i])@.len() > 0,
            input_idx <= keys@.len(),
            positions@.len() == input_idx,
            forall|i: int| 0 <= i < input_idx ==> #[trigger] positions@[i] == 0,
            start == Seq::<u8>::empty(),
            queued(heap@),
            stands_for(heap@, ks.take(input_idx as int), start, -1),
        decreases keys@.len() - input_idx,
    {
        let ghost before = heap@;
        let ghost n = input_idx as int;
        proof {
            assert(keys@[n]@.len() > 0);
        }
        heap.push(HeapEntry { input_idx, key: keys[input_idx][0] });
        positions.push(0);
        proof {
            let entry = HeapEntry { input_idx, key: ks[n][0] };
            let p = choose|p: int|
                0 <= p <= before.len() && heap@ == #[trigger] before.insert(p, entry);
            let part = ks.take(n + 1);
            assert forall|q: int| 0 <= q < heap@.len() implies {
                let i = (#[trigger] heap@[q]).input_idx as int;
                &&& i != -1
                &&& has_more(part, start, i)
                &&& heap@[q] == entry_of(part, start, i)
            } by {
                if q < p {
                    assert(heap@[q] == before[q]);
                } else if q > p {
                    assert(heap@[q] == before[q - 1]);
                }
            }
            assert forall|i: int| i != -1 && #[trigger] has_more(part, start, i) implies exists|
                q: int,
            | 0 <= q < heap@.len() && (#[trigger] heap@[q]).input_idx == i by {
                if i == n {
                    assert(heap@[p].input_idx == i);
                } else {
                    assert(has_more(ks.take(n), start, i));
                    let q = choose|q: int|
                        0 <= q < before.len() && (#[trigger] before[q]).input_idx == i;
                    if q < p {
                        assert(heap@[q] == before[q]);
                    } else {
                        assert(heap@[q + 1] == before[q]);
                    }
                }
            }
        }
        input_idx += 1;
    }
    proof {
        assert(ks.take(ks.len() as int) =~= ks);
    }
    loop
        invariant
            lawful::<K>(),
            keys@.len() <= 256,
            ks == keys@.map_values(|v: Vec<K>| v@),
            queued(heap@),
            stands_for(heap@, ks, out@, -1),
            within(ks, out@),
            positions@.len() == ks.len(),
            forall|i: int|
                0 <= i < ks.len() ==> #[trigger] positions@[i] == occurrences(out@, i as u8),
            forall|p: int|
                0 <= p < out@.len() ==> takes(ks, #[trigger] out@.take(p), out@[p] as int),
            out@.len() > 0 ==> !keeps_on(ks, out@, out@.last() as int),
        ensures
            heap@.len() == 0,
        decreases total(lens(ks)) - out@.len(),
    {
        let ghost before = heap@;
        let ghost done = out@;
        let popped = heap.pop();
        if popped.is_none() {
            break;
        }
        let entry = popped.unwrap();
        let idx: usize = entry.input_idx;
        let length: usize = keys[idx].len();
        let ghost i = idx as int;
        proof {
            assert(before[before.len() - 1] == entry);
            lemma_first_is_least(before, ks, done, -1);
            assert(takes(ks, done, i));
            lemma_step(ks, done, i as u8);
            lemma_taken(ks, done, i as u8);
            lemma_moved_on(before, heap@, ks, done, i);
            lemma_within(ks, done, i);
            assert(positions@[i] < length);
        }
        out.push(idx as u8);
        positions.set(idx, positions[idx] + 1);
        while positions[idx] < length && !beyond_first(&keys[idx][positions[idx]], &heap)
            invariant
                lawful::<K>(),
                keys@.len() <= 256,
                ks == keys@.map_values(|v: Vec<K>| v@),
                i == idx,
                0 <= i < ks.len(),
                length == ks[i].len(),
                queued(heap@),
                stands_for(heap@, ks, out@, i),
                within(ks, out@),
                out@.len() > done.len(),
                out@.last() == i,
                positions@.len() == ks.len(),
                forall|j: int|
                    0 <= j < ks.len() ==> #[trigger] positions@[j] == occurrences(out@, j as u8),
                forall|p: int|
                    0 <= p < out@.len() ==> takes(ks, #[trigger] out@.take(p), out@[p] as int),
            decreases length - positions@[i],
        {
            let ghost run = out@;
            proof {
                lemma_goes_on(heap@, ks, run, i);
                assert(takes(ks, run, i));
                lemma_step(ks, run, i as u8);
                lemma_taken(ks, run, i as u8);
                lemma_still_stands(heap@, ks, run, i);
                lemma_within(ks, run, i);
            }
            out.push(idx as u8);
            positions.set(idx, positions[idx] + 1);
        }
        let ghost rest = heap@;
        if positions[idx] < length {
            proof {
                lemma_goes_on(rest, ks, out@, i);
            }
            let back = HeapEntry { input_idx: idx, key: keys[idx][positions[idx]] };
            heap.push(back);
            proof {
                assert(positions@[i] == occurrences(out@, i as u8));
                assert(back == entry_of(ks, out@, i));
                lemma_put_back(rest, heap@, ks, out@, i);
            }
        } else {
            proof {
                assert(!has_more(ks, out@, i));
            }
        }
        proof {
            lemma_within_total(ks, out@);
        }
    }
    proof {
        assert forall|j: u8| j < ks.len() implies #[trigger] occurrences(out@, j) == lens(
            ks,
        )[j as int] by {
            if has_more(ks, out@, j as int) {
                let q = choose|q: int|
                    0 <= q < heap@.len() && (#[trigger] heap@[q]).input_idx == j as int;
            }
        }
    }
    out
}

/// Whether `key` is beyond the key of the queue's first entry.
fn beyond_first<K: Ord + Copy>(key: &K, heap: &MergeHeap<K>) -> (r: bool)
    requires
        lawful::<K>(),
    ensures
        r == (heap@.len() > 0 && !key_le(*key, heap@.last().key)),
{
    match heap.peek() {
        None => false,
        Some(first) => key_beyond(key, &first),
    }
}

} // verus!
