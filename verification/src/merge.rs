//! Two-way merging of sorted sequences, and the interleaving of columns along a merge.
use crate::merge_laws::law_merge_takes_every_element;
use crate::reading_laws::law_merge_takes_a_head;
use core::cmp::Ordering;
use vstd::prelude::*;
use vstd::std_specs::cmp::PartialOrdSpec;

verus! {

/// The merge of `a` and `b`: the head of `a` goes first wherever `le` puts it at or before the
/// head of `b`.
pub open spec fn merged<T>(a: Seq<T>, b: Seq<T>, le: spec_fn(T, T) -> bool) -> Seq<T>
    decreases a.len() + b.len(),
{
    if a.len() == 0 {
        b
    } else if b.len() == 0 {
        a
    } else if le(a[0], b[0]) {
        seq![a[0]] + merged(a.drop_first(), b, le)
    } else {
        seq![b[0]] + merged(a, b.drop_first(), le)
    }
}

/// Which side each element of `merged(a, b, le)` comes from: 0 for `a`, 1 for `b`.
pub open spec fn merge_order<T>(a: Seq<T>, b: Seq<T>, le: spec_fn(T, T) -> bool) -> Seq<u8>
    decreases a.len() + b.len(),
{
    if a.len() == 0 {
        Seq::new(b.len(), |i: int| 1u8)
    } else if b.len() == 0 {
        Seq::new(a.len(), |i: int| 0u8)
    } else if le(a[0], b[0]) {
        seq![0u8] + merge_order(a.drop_first(), b, le)
    } else {
        seq![1u8] + merge_order(a, b.drop_first(), le)
    }
}

/// What `le` puts in a row, it puts from end to end.
pub open spec fn transitive<T>(le: spec_fn(T, T) -> bool) -> bool {
    forall|x: T, y: T, z: T| #[trigger] le(x, y) && #[trigger] le(y, z) ==> le(x, z)
}

/// `le` ranks any two values, and does so transitively.
pub open spec fn total_preorder<T>(le: spec_fn(T, T) -> bool) -> bool {
    &&& forall|x: T, y: T| #[trigger] le(x, y) || le(y, x)
    &&& transitive(le)
}

/// `le` does so for the values that `among` holds of.
pub open spec fn total_preorder_among<T>(
    le: spec_fn(T, T) -> bool,
    among: spec_fn(T) -> bool,
) -> bool {
    &&& forall|x: T, y: T| among(x) && among(y) ==> #[trigger] le(x, y) || le(y, x)
    &&& forall|x: T, y: T, z: T|
        among(x) && among(y) && among(z) && #[trigger] le(x, y) && #[trigger] le(y, z) ==> le(
            x,
            z,
        )
}

/// `among` holds of every element of `s`.
pub open spec fn all_among<T>(s: Seq<T>, among: spec_fn(T) -> bool) -> bool {
    forall|i: int| 0 <= i < s.len() ==> among(#[trigger] s[i])
}

/// No element of `s` comes after one that `le` does not put it at or before.
pub open spec fn sorted<T>(s: Seq<T>, le: spec_fn(T, T) -> bool) -> bool {
    forall|i: int, j: int| 0 <= i < j < s.len() ==> le(#[trigger] s[i], #[trigger] s[j])
}

/// How often `x` occurs in `s`.
pub open spec fn occurrences(s: Seq<u8>, x: u8) -> nat
    decreases s.len(),
{
    if s.len() == 0 {
        0
    } else {
        occurrences(s.drop_last(), x) + if s.last() == x {
            1nat
        } else {
            0nat
        }
    }
}

/// The sources read along `order`: place `p` holds the next unread element of source `order[p]`.
pub open spec fn weave<T>(sources: Seq<Seq<T>>, order: Seq<u8>) -> Seq<T> {
    Seq::new(
        order.len(),
        |p: int| sources[order[p] as int][occurrences(order.take(p), order[p]) as int],
    )
}

/// `order` names each source exactly as often as the source has elements, and nothing else.
/// Sources that it has no number for have none.
pub open spec fn uses_up(lens: Seq<nat>, order: Seq<u8>) -> bool {
    &&& forall|p: int| 0 <= p < order.len() ==> (#[trigger] order[p]) < lens.len()
    &&& forall|k: int| 256 <= k < lens.len() ==> #[trigger] lens[k] == 0
    &&& forall|j: u8| j < lens.len() ==> #[trigger] occurrences(order, j) == lens[j as int]
}

/// The lengths of the sources.
pub open spec fn lens<T>(sources: Seq<Seq<T>>) -> Seq<nat> {
    Seq::new(sources.len(), |i: int| sources[i].len())
}

/// `x <= y` as the type's partial order has it.
pub open spec fn at_most<T: PartialOrd>(x: T, y: T) -> bool {
    ||| x.partial_cmp_spec(&y) == Some(Ordering::Less)
    ||| x.partial_cmp_spec(&y) == Some(Ordering::Equal)
}

/// `at_most` as a function value.
pub open spec fn order_of<T: PartialOrd>() -> spec_fn(T, T) -> bool {
    |x: T, y: T| at_most(x, y)
}

/// The type's comparison operators answer as its partial order says.
pub open spec fn ordered<T: PartialOrd>() -> bool {
    T::obeys_partial_cmp_spec()
}

/// Whether `x <= y`.
fn goes_first<T: PartialOrd>(x: &T, y: &T) -> (r: bool)
    requires
        ordered::<T>(),
    ensures
        r == at_most(*x, *y),
{
    *x <= *y
}

/// Produces the order in which a merge of `a` and `b` takes its elements: 0 = take from `a`,
/// 1 = take from `b`. Where two elements compare equal, the one of `a` goes first.
pub fn get_merge_indicator<T: PartialOrd>(a: &[T], b: &[T]) -> (out: Vec<u8>)
    requires
        ordered::<T>(),
        a@.len() + b@.len() <= usize::MAX,
    ensures
        out@ == merge_order(a@, b@, order_of::<T>()),
        out@.len() == a@.len() + b@.len(),
        forall|p: int|
            0 <= p < out@.len() ==> {
                let i = out@.take(p).to_multiset().count(0) as int;
                let j = out@.take(p).to_multiset().count(1) as int;
                &&& (#[trigger] out@[p]) == 0 || out@[p] == 1
                &&& out@[p] == 0 <==> i < a@.len() && (j == b@.len() || at_most(a@[i], b@[j]))
            },
{
    let mut out: Vec<u8> = Vec::with_capacity(a.len() + b.len());
    let mut i: usize = 0;
    let mut j: usize = 0;
    let ghost le = order_of::<T>();
    proof {
        assert(a@.skip(0) =~= a@);
        assert(b@.skip(0) =~= b@);
    }
    while i < a.len() && j < b.len()
        invariant
            ordered::<T>(),
            i <= a@.len(),
            j <= b@.len(),
            le == order_of::<T>(),
            out@ + merge_order(a@.skip(i as int), b@.skip(j as int), le) =~= merge_order(
                a@,
                b@,
                le,
            ),
        decreases a@.len() + b@.len() - i - j,
    {
        proof {
            assert(a@.skip(i as int).drop_first() =~= a@.skip(i + 1));
            assert(b@.skip(j as int).drop_first() =~= b@.skip(j + 1));
        }
        if goes_first(&a[i], &b[j]) {
            out.push(0);
            i += 1;
        } else {
            out.push(1);
            j += 1;
        }
    }
    let ghost taken = out@;
    let ghost a_rest = a@.len() - i;
    let ghost b_rest = b@.len() - j;
    while i < a.len()
        invariant
            i <= a@.len(),
            a@.len() - i <= a_rest,
            out@ =~= taken + Seq::new((a_rest - (a@.len() - i)) as nat, |p: int| 0u8),
        decreases a@.len() - i,
    {
        out.push(0);
        i += 1;
    }
    while j < b.len()
        invariant
            j <= b@.len(),
            b@.len() - j <= b_rest,
            out@ =~= taken + Seq::new(a_rest as nat, |p: int| 0u8) + Seq::new(
                (b_rest - (b@.len() - j)) as nat,
                |p: int| 1u8,
            ),
        decreases b@.len() - j,
    {
        out.push(1);
        j += 1;
    }
    proof {
        law_merge_takes_every_element(a@, b@, le);
        assert(out@ =~= merge_order(a@, b@, le));
        assert forall|p: int| 0 <= p < out@.len() implies {
            let i = out@.take(p).to_multiset().count(0) as int;
            let j = out@.take(p).to_multiset().count(1) as int;
            &&& (#[trigger] out@[p]) == 0 || out@[p] == 1
            &&& out@[p] == 0 <==> i < a@.len() && (j == b@.len() || at_most(a@[i], b@[j]))
        } by {
            law_merge_takes_a_head(a@, b@, le, p);
        }
    }
    out
}

} // verus!
