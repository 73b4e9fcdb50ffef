//! How values rank, said of the values themselves.
use crate::cells::{lemma_lex, lex_le, Bytes, Float64};
use crate::heap::{key_le, sooner, HeapEntry};
use crate::merge::{at_most, merged, sorted};
use crate::merge_laws::{law_merge_is_sorted, law_merge_keeps_elements};
use crate::total_ord::{lemma_rank_order, rank_order, TotalOrd};
use vstd::prelude::*;
use vstd::std_specs::cmp::{OrdSpec, PartialEqSpec, PartialOrdSpec};

verus! {

/// Integers of every width rank by their value, and `false` ranks before `true`.
pub proof fn law_integers_rank_by_value()
    ensures
        forall|x: u8, y: u8| #[trigger] x.ranks_le(y) <==> x as int <= y as int,
        forall|x: u16, y: u16| #[trigger] x.ranks_le(y) <==> x as int <= y as int,
        forall|x: u32, y: u32| #[trigger] x.ranks_le(y) <==> x as int <= y as int,
        forall|x: u64, y: u64| #[trigger] x.ranks_le(y) <==> x as int <= y as int,
        forall|x: u128, y: u128| #[trigger] x.ranks_le(y) <==> x as int <= y as int,
        forall|x: usize, y: usize| #[trigger] x.ranks_le(y) <==> x as int <= y as int,
        forall|x: i8, y: i8| #[trigger] x.ranks_le(y) <==> x as int <= y as int,
        forall|x: i16, y: i16| #[trigger] x.ranks_le(y) <==> x as int <= y as int,
        forall|x: i32, y: i32| #[trigger] x.ranks_le(y) <==> x as int <= y as int,
        forall|x: i64, y: i64| #[trigger] x.ranks_le(y) <==> x as int <= y as int,
        forall|x: i128, y: i128| #[trigger] x.ranks_le(y) <==> x as int <= y as int,
        forall|x: isize, y: isize| #[trigger] x.ranks_le(y) <==> x as int <= y as int,
        false.ranks_le(false),
        false.ranks_le(true),
        true.ranks_le(true),
        !true.ranks_le(false),
{
}

/// Merging two lists whose items ascend in value gives a list whose items ascend in value, with
/// the items of both: for every type that ranks by some value.
pub proof fn law_merge_ascends<T: TotalOrd>(a: Seq<T>, b: Seq<T>, value: spec_fn(T) -> int)
    requires
        forall|x: T, y: T| #[trigger] x.ranks_le(y) <==> value(x) <= value(y),
        forall|i: int, j: int|
            0 <= i < j < a.len() ==> value(#[trigger] a[i]) <= value(#[trigger] a[j]),
        forall|i: int, j: int|
            0 <= i < j < b.len() ==> value(#[trigger] b[i]) <= value(#[trigger] b[j]),
    ensures
        forall|i: int, j: int|
            0 <= i < j < merged(a, b, rank_order::<T>()).len() ==> value(
                #[trigger] merged(a, b, rank_order::<T>())[i],
            ) <= value(#[trigger] merged(a, b, rank_order::<T>())[j]),
        merged(a, b, rank_order::<T>()).to_multiset() == (a + b).to_multiset(),
{
    let le = rank_order::<T>();
    lemma_rank_order::<T>();
    assert(sorted(a, le)) by {
        assert forall|i: int, j: int| 0 <= i < j < a.len() implies le(
            #[trigger] a[i],
            #[trigger] a[j],
        ) by {
            assert(a[i].ranks_le(a[j]));
        }
    }
    assert(sorted(b, le)) by {
        assert forall|i: int, j: int| 0 <= i < j < b.len() implies le(
            #[trigger] b[i],
            #[trigger] b[j],
        ) by {
            assert(b[i].ranks_le(b[j]));
        }
    }
    law_merge_is_sorted(a, b, le);
    law_merge_keeps_elements(a, b, le);
    vstd::seq_lib::lemma_multiset_commutative(a, b);
    let m = merged(a, b, le);
    assert forall|i: int, j: int| 0 <= i < j < m.len() implies value(#[trigger] m[i]) <= value(
        #[trigger] m[j],
    ) by {
        assert(le(m[i], m[j]));
        assert(m[i].ranks_le(m[j]));
    }
}

/// Merging ascending integers gives ascending integers.
pub proof fn law_merge_of_integers_ascends(a: Seq<i64>, b: Seq<i64>)
    requires
        forall|i: int, j: int| 0 <= i < j < a.len() ==> a[i] <= a[j],
        forall|i: int, j: int| 0 <= i < j < b.len() ==> b[i] <= b[j],
    ensures
        forall|i: int, j: int|
            0 <= i < j < merged(a, b, rank_order::<i64>()).len() ==> merged(
                a,
                b,
                rank_order::<i64>(),
            )[i] <= merged(a, b, rank_order::<i64>())[j],
        merged(a, b, rank_order::<i64>()).len() == a.len() + b.len(),
{
    let value = |x: i64| x as int;
    law_merge_ascends(a, b, value);
    law_merge_keeps_elements(a, b, rank_order::<i64>());
    let m = merged(a, b, rank_order::<i64>());
    assert forall|i: int, j: int| 0 <= i < j < m.len() implies m[i] <= m[j] by {
        assert(value(m[i]) <= value(m[j]));
    }
}

/// Floating point numbers rank by their value. Of two that are not negative, the one with the
/// smaller bits is before the other; of two negative ones, the one with the larger bits; negative
/// ones are before the others; only the two zeros rank the same. What is no number ranks after all
/// numbers, and all of it the same.
pub proof fn law_floats_rank_by_value(x: Float64, y: Float64)
    ensures
        x.is_nan() <==> 0x7ff0_0000_0000_0000 < x.bits < 0x8000_0000_0000_0000 || x.bits
            > 0xfff0_0000_0000_0000,
        x.is_nan() && y.is_nan() ==> x.rank() == y.rank(),
        !x.is_nan() && y.is_nan() ==> x.rank() < y.rank(),
        !x.is_nan() && !y.is_nan() ==> {
            let xneg = x.bits >= 0x8000_0000_0000_0000;
            let yneg = y.bits >= 0x8000_0000_0000_0000;
            &&& !xneg && !yneg ==> (x.rank() < y.rank() <==> x.bits < y.bits)
            &&& xneg && yneg ==> (x.rank() < y.rank() <==> x.bits > y.bits)
            &&& xneg && !yneg ==> x.rank() <= y.rank()
            &&& x.rank() == y.rank() <==> x.bits == y.bits || (x.bits == 0 || x.bits
                == 0x8000_0000_0000_0000) && (y.bits == 0 || y.bits == 0x8000_0000_0000_0000)
        },
        x.ranks_le(y) <==> x.rank() <= y.rank(),
        -0x8000_0000_0000_0000 < x.rank() < 0x8000_0000_0000_0000,
{
}

/// Comparing floating point numbers with `<=` and `==` goes by their value, and what is no number
/// compares with nothing.
pub proof fn law_floats_compare_by_value(x: Float64, y: Float64)
    ensures
        ({
            let xnan = 0x7ff0_0000_0000_0000 < x.bits < 0x8000_0000_0000_0000 || x.bits
                > 0xfff0_0000_0000_0000;
            let ynan = 0x7ff0_0000_0000_0000 < y.bits < 0x8000_0000_0000_0000 || y.bits
                > 0xfff0_0000_0000_0000;
            let xneg = x.bits >= 0x8000_0000_0000_0000;
            let yneg = y.bits >= 0x8000_0000_0000_0000;
            let zeros = (x.bits == 0 || x.bits == 0x8000_0000_0000_0000) && (y.bits == 0 || y.bits
                == 0x8000_0000_0000_0000);
            &&& xnan || ynan ==> !at_most(x, y) && !x.eq_spec(&y)
            &&& !xnan && !ynan ==> {
                &&& !xneg && !yneg ==> (at_most(x, y) <==> x.bits <= y.bits)
                &&& xneg && yneg ==> (at_most(x, y) <==> x.bits >= y.bits)
                &&& xneg && !yneg ==> at_most(x, y)
                &&& !xneg && yneg ==> (at_most(x, y) <==> zeros)
                &&& x.eq_spec(&y) <==> x.bits == y.bits || zeros
            }
        }),
        x.partial_cmp_spec(&y) == Some(core::cmp::Ordering::Equal) <==> x.eq_spec(&y),
        x.partial_cmp_spec(&y) == Some(core::cmp::Ordering::Less) <==> at_most(x, y)
            && !x.eq_spec(&y),
        x.partial_cmp_spec(&y) == Some(core::cmp::Ordering::Greater) <==> at_most(y, x)
            && !x.eq_spec(&y),
{
}

/// Byte strings are in the order of a dictionary: of two that agree on their first `n` bytes, the
/// one with the smaller byte in place `n` is strictly before the other, and so is one that ends
/// there before one that goes on. Only equal ones are at or before each other both ways.
pub proof fn law_bytes_order_as_a_dictionary(a: Bytes, b: Bytes, n: int)
    requires
        0 <= n <= a@.len(),
        n <= b@.len(),
        forall|i: int| 0 <= i < n ==> a@[i] == b@[i],
    ensures
        n < a@.len() && n < b@.len() && a@[n] < b@[n] ==> {
            &&& at_most(a, b)
            &&& !at_most(b, a)
            &&& lex_le(a@, b@)
            &&& !lex_le(b@, a@)
        },
        n == a@.len() && n < b@.len() ==> {
            &&& at_most(a, b)
            &&& !at_most(b, a)
            &&& lex_le(a@, b@)
            &&& !lex_le(b@, a@)
        },
        n == a@.len() && n == b@.len() ==> at_most(a, b) && at_most(b, a) && lex_le(a@, b@),
        a.eq_spec(&b) <==> a@ == b@,
        a.partial_cmp_spec(&b) == Some(core::cmp::Ordering::Equal) <==> a@ == b@,
        a.partial_cmp_spec(&b) == Some(core::cmp::Ordering::Less) <==> at_most(a, b) && a@ != b@,
        a.partial_cmp_spec(&b) == Some(core::cmp::Ordering::Greater) <==> !at_most(a, b),
{
    lemma_common_prefix(a@, b@, n);
    lemma_lex(a@, b@, a@);
    lemma_lex(b@, a@, b@);
    if n == a@.len() && n == b@.len() {
        assert(a@ =~= b@);
    }
}

/// What byte strings have in common in front does not tell them apart.
pub proof fn lemma_common_prefix(a: Seq<u8>, b: Seq<u8>, n: int)
    requires
        0 <= n <= a.len(),
        n <= b.len(),
        forall|i: int| 0 <= i < n ==> a[i] == b[i],
    ensures
        n < a.len() && n < b.len() && a[n] < b[n] ==> lex_le(a, b) && !lex_le(b, a),
        n == a.len() ==> lex_le(a, b),
        n == a.len() && n < b.len() ==> !lex_le(b, a),
    decreases n,
{
    if n > 0 {
        let a1 = a.drop_first();
        let b1 = b.drop_first();
        assert forall|i: int| 0 <= i < n - 1 implies a1[i] == b1[i] by {
            assert(a[i + 1] == b[i + 1]);
        }
        lemma_common_prefix(a1, b1, n - 1);
        assert(a[0] == b[0]);
    }
}

/// A value that is not there is at or before everything; one that is there is before nothing that
/// is not, and else compares as the value itself.
pub proof fn law_missing_values_go_first<T: PartialOrd>(x: T, y: T)
    ensures
        at_most(None::<T>, None::<T>),
        at_most(None::<T>, Some(y)),
        !at_most(Some(x), None::<T>),
        at_most(Some(x), Some(y)) <==> at_most(x, y),
{
}

/// Integers compare by their value.
pub proof fn law_integers_compare_by_value()
    ensures
        forall|x: u8, y: u8| #[trigger] at_most(x, y) <==> x as int <= y as int,
        forall|x: i128, y: i128| #[trigger] at_most(x, y) <==> x as int <= y as int,
        forall|x: u128, y: u128| #[trigger] at_most(x, y) <==> x as int <= y as int,
        forall|x: i128, y: i128| #[trigger] key_le(x, y) <==> x as int <= y as int,
        forall|x: u128, y: u128| #[trigger] key_le(x, y) <==> x as int <= y as int,
{
}

/// A key is at or before another one where comparing them does not say that it is greater.
pub proof fn law_keys_compare_as_their_type_does<K: Ord>(x: K, y: K)
    ensures
        key_le(x, y) <==> x.cmp_spec(&y) != core::cmp::Ordering::Greater,
{
}

/// In the queue of a merge, the entry with the lesser key comes out first, and of two with one key
/// that of the earlier input.
pub proof fn law_lesser_key_comes_out_first(e: HeapEntry<i128>, f: HeapEntry<i128>)
    ensures
        sooner(e, f) <==> e.key < f.key || e.key == f.key && e.input_idx < f.input_idx,
{
}

/// The same for unsigned keys.
pub proof fn law_lesser_unsigned_key_comes_out_first(e: HeapEntry<u128>, f: HeapEntry<u128>)
    ensures
        sooner(e, f) <==> e.key < f.key || e.key == f.key && e.input_idx < f.input_idx,
{
}

} // verus!
