//! The queue of a many-way merge: the input whose next key is least comes out first.
use core::cmp::Ordering;
use vstd::laws_cmp::{
    obeys_cmp, obeys_cmp_ord, obeys_cmp_partial_ord, obeys_partial_cmp_spec_properties,
};
use vstd::prelude::*;
use vstd::std_specs::cmp::{OrdSpec, PartialEqSpec, PartialOrdSpec};

verus! {

/// The order of the keys is the total order that `Ord` asks for.
pub open spec fn lawful<K: Ord>() -> bool {
    obeys_cmp::<K>()
}

/// `x` is at or before `y`.
pub open spec fn key_le<K: Ord>(x: K, y: K) -> bool {
    x.cmp_spec(&y) != Ordering::Greater
}

/// `key_le` as a function value.
pub open spec fn key_order<K: Ord>() -> spec_fn(K, K) -> bool {
    |x: K, y: K| key_le(x, y)
}

/// Keys are ranked totally.
pub proof fn lemma_key_order<K: Ord>()
    requires
        lawful::<K>(),
    ensures
        crate::merge::total_preorder(key_order::<K>()),
        forall|x: K| #[trigger] key_le(x, x),
{
    lemma_outcomes::<K>();
}

/// What the three outcomes of a comparison say, and that keys are ranked totally.
proof fn lemma_outcomes<K: Ord>()
    requires
        lawful::<K>(),
    ensures
        crate::merge::total_preorder(key_order::<K>()),
        forall|x: K, y: K|
            #![trigger x.cmp_spec(&y)]
            {
                &&& x.cmp_spec(&y) == Ordering::Less <==> !key_le(y, x)
                &&& x.cmp_spec(&y) == Ordering::Greater <==> !key_le(x, y)
            },
        forall|x: K| #[trigger] key_le(x, x),
{
    broadcast use vstd::laws_cmp::group_laws_cmp;

    reveal(obeys_cmp_ord);
    reveal(obeys_cmp_partial_ord);
    reveal(obeys_partial_cmp_spec_properties);
    reveal(vstd::laws_eq::obeys_eq_spec_properties);
    let le = key_order::<K>();
    assert forall|x: K, y: K| #[trigger] le(x, y) || le(y, x) by {
        assert(x.partial_cmp_spec(&y) == Some(x.cmp_spec(&y)));
        assert(y.partial_cmp_spec(&x) == Some(y.cmp_spec(&x)));
    }
    assert forall|x: K, y: K| #![trigger x.cmp_spec(&y)] {
        &&& x.cmp_spec(&y) == Ordering::Less <==> !key_le(y, x)
        &&& x.cmp_spec(&y) == Ordering::Greater <==> !key_le(x, y)
    } by {
        assert(x.partial_cmp_spec(&y) == Some(x.cmp_spec(&y)));
        assert(y.partial_cmp_spec(&x) == Some(y.cmp_spec(&x)));
    }
    assert forall|x: K| #[trigger] key_le(x, x) by {
        assert(x.partial_cmp_spec(&x) == Some(x.cmp_spec(&x)));
    }
    assert forall|x: K, y: K, z: K| #[trigger] le(x, y) && #[trigger] le(y, z) implies le(
        x,
        z,
    ) by {
        assert(x.partial_cmp_spec(&y) == Some(x.cmp_spec(&y)));
        assert(y.partial_cmp_spec(&x) == Some(y.cmp_spec(&x)));
        assert(y.partial_cmp_spec(&z) == Some(y.cmp_spec(&z)));
        assert(z.partial_cmp_spec(&y) == Some(z.cmp_spec(&y)));
        assert(x.partial_cmp_spec(&z) == Some(x.cmp_spec(&z)));
        assert(z.partial_cmp_spec(&x) == Some(z.cmp_spec(&x)));
        if x.cmp_spec(&z) == Ordering::Greater {
            assert(z.partial_cmp_spec(&x) == Some(Ordering::Less));
            if x.cmp_spec(&y) == Ordering::Less {
                assert(z.partial_cmp_spec(&y) == Some(Ordering::Less));
            } else if y.cmp_spec(&z) == Ordering::Less {
                assert(y.partial_cmp_spec(&x) == Some(Ordering::Less));
            } else {
                assert(x.eq_spec(&y));
                assert(y.eq_spec(&z));
                assert(x.eq_spec(&z));
            }
        }
    }
}

/// The next key of one of the inputs of a merge.
pub struct HeapEntry<K> {
    pub input_idx: usize,
    pub key: K,
}

/// `e` comes out before `f`: its key is less, or the keys are equal and its input is the earlier
/// one.
pub open spec fn sooner<K: Ord>(e: HeapEntry<K>, f: HeapEntry<K>) -> bool {
    ||| !key_le(f.key, e.key)
    ||| key_le(e.key, f.key) && e.input_idx < f.input_idx
}

impl<K: Ord> HeapEntry<K> {
    /// The entry that comes out first is the greater one.
    pub fn cmp(&self, other: &Self) -> (r: Ordering)
        requires
            lawful::<K>(),
        ensures
            r == Ordering::Greater <==> sooner(*self, *other),
            r == Ordering::Less <==> sooner(*other, *self),
    {
        proof {
            lemma_outcomes::<K>();
            reveal(obeys_cmp_ord);
        }
        match other.key.cmp(&self.key) {
            Ordering::Equal => other.input_idx.cmp(&self.input_idx),
            decided => decided,
        }
    }

    /// As `cmp`, which always has an answer.
    pub fn partial_cmp(&self, other: &Self) -> (r: Option<Ordering>)
        requires
            lawful::<K>(),
        ensures
            r == Some(Ordering::Greater) <==> sooner(*self, *other),
            r == Some(Ordering::Less) <==> sooner(*other, *self),
            r is Some,
    {
        Some(self.cmp(other))
    }
}

/// `sooner` is a strict order on entries of different inputs.
pub proof fn lemma_sooner<K: Ord>(e: HeapEntry<K>, f: HeapEntry<K>, g: HeapEntry<K>)
    requires
        lawful::<K>(),
    ensures
        !(sooner(e, f) && sooner(f, e)),
        e.input_idx != f.input_idx ==> sooner(e, f) || sooner(f, e),
        sooner(e, f) && sooner(f, g) ==> sooner(e, g),
        sooner(e, f) ==> key_le(e.key, f.key),
{
    lemma_key_order::<K>();
    let le = key_order::<K>();
    assert(le(e.key, f.key) || le(f.key, e.key));
    assert(le(f.key, g.key) || le(g.key, f.key));
    assert(le(e.key, g.key) || le(g.key, e.key));
    if sooner(e, f) && sooner(f, g) {
        assert(le(e.key, f.key));
        assert(le(f.key, g.key));
        assert(le(e.key, g.key));
        if le(g.key, e.key) {
            assert(le(g.key, f.key));
            assert(le(f.key, e.key));
        }
    }
}

/// A queue of entries of different inputs, from which the soonest one comes out first.
pub struct MergeHeap<K> {
    entries: Vec<HeapEntry<K>>,
}

impl<K> View for MergeHeap<K> {
    type V = Seq<HeapEntry<K>>;

    /// The entries, the one that comes out first at the end.
    closed spec fn view(&self) -> Seq<HeapEntry<K>> {
        self.entries@
    }
}

/// Each entry comes out before the ones in front of it.
pub open spec fn queued<K: Ord>(entries: Seq<HeapEntry<K>>) -> bool {
    forall|i: int, j: int|
        0 <= i < j < entries.len() ==> sooner(#[trigger] entries[j], #[trigger] entries[i])
}

impl<K: Ord + Copy> MergeHeap<K> {
    /// An empty queue.
    pub fn with_capacity(capacity: usize) -> (heap: Self)
        ensures
            heap@ == Seq::<HeapEntry<K>>::empty(),
            queued(heap@),
    {
        MergeHeap { entries: Vec::with_capacity(capacity) }
    }

    /// Puts `entry` in its place.
    pub fn push(&mut self, entry: HeapEntry<K>)
        requires
            lawful::<K>(),
            queued(old(self)@),
            forall|i: int|
                0 <= i < old(self)@.len() ==> (#[trigger] old(self)@[i]).input_idx
                    != entry.input_idx,
        ensures
            queued(final(self)@),
            exists|p: int|
                0 <= p <= old(self)@.len() && final(self)@ == #[trigger] old(self)@.insert(
                    p,
                    entry,
                ),
    {
        let ghost before = self@;
        let mut p: usize = self.entries.len();
        while p > 0 && goes_ahead(&self.entries[p - 1], &entry)
            invariant
                lawful::<K>(),
                self@ == before,
                p <= before.len(),
                queued(before),
                forall|i: int| p <= i < before.len() ==> sooner(#[trigger] before[i], entry),
            decreases p,
        {
            p -= 1;
        }
        self.entries.insert(p, entry);
        proof {
            let now = self@;
            assert(now == before.insert(p as int, entry));
            assert forall|i: int, j: int| 0 <= i < j < now.len() implies sooner(
                #[trigger] now[j],
                #[trigger] now[i],
            ) by {
                if i < p && j == p {
                    assert(now[i] == before[i]);
                    let top = before[p - 1];
                    lemma_sooner(top, entry, entry);
                    if i < p - 1 {
                        lemma_sooner(entry, top, before[i]);
                    }
                } else if i == p {
                    assert(now[j] == before[j - 1]);
                }
            }
        }
    }

    /// Takes out the entry that comes first.
    pub fn pop(&mut self) -> (entry: Option<HeapEntry<K>>)
        requires
            queued(old(self)@),
        ensures
            queued(final(self)@),
            entry is None <==> old(self)@.len() == 0,
            entry is None ==> final(self)@ == old(self)@,
            entry is Some ==> entry == Some(old(self)@.last()) && final(self)@
                == old(self)@.drop_last(),
    {
        self.entries.pop()
    }

    /// The key of the entry that comes first.
    pub fn peek(&self) -> (key: Option<K>)
        ensures
            key == if self@.len() == 0 {
                None
            } else {
                Some(self@.last().key)
            },
    {
        if self.entries.len() == 0 {
            None
        } else {
            Some(self.entries[self.entries.len() - 1].key)
        }
    }
}

/// Whether `e` comes out before `f`.
fn goes_ahead<K: Ord>(e: &HeapEntry<K>, f: &HeapEntry<K>) -> (r: bool)
    requires
        lawful::<K>(),
    ensures
        r == sooner(*e, *f),
{
    match e.cmp(f) {
        Ordering::Greater => true,
        _ => false,
    }
}

/// Whether `x` is beyond `y`.
pub fn key_beyond<K: Ord>(x: &K, y: &K) -> (r: bool)
    requires
        lawful::<K>(),
    ensures
        r == !key_le(*x, *y),
{
    proof {
        lemma_outcomes::<K>();
        reveal(obeys_cmp_ord);
    }
    match x.cmp(y) {
        Ordering::Greater => true,
        _ => false,
    }
}

} // verus!
