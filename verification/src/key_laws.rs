//! In which order rows are taken by their keys, said of the values that the key columns hold.
use crate::frame::{data_len, same_type, Data, Series};
use crate::heap::{key_le, key_order, lawful, lemma_key_order, lemma_sooner};
use crate::indicator::key_merge_order;
use crate::keys::{key_at_most, key_rank, key_sorted, lemma_key_order_by_keys, row_keys, Key};
use crate::merge::{lens, occurrences};
use crate::merge_many::{comes_next, entry_of, has_more, head, is_many_order, keeps_on, takes};
use crate::merge_many_frames::{
    all_of, by_number, key_values_of, number_order, CodeKeys, FloatKeys, IntKeys, LogicalKeys,
    Numeric, UIntKeys,
};
use crate::reading_laws::{law_merge_takes_a_head, law_occurrences_are_counted};
use crate::value_laws::lemma_common_prefix;
use vstd::prelude::*;

verus! {

/// Keys that are null are at or before all others and before nothing that is there; numbers are in
/// the order of their value, byte strings in that of a dictionary; what is no number is at or
/// before nothing, and nothing but null is at or before it.
pub proof fn law_keys_order_by_value(x: Key, y: Key, n: int)
    ensures
        x is Null ==> key_at_most(x, y),
        y is Null && !(x is Null) ==> !key_at_most(x, y),
        x is NoNumber ==> !key_at_most(x, y),
        y is NoNumber && !(x is Null) ==> !key_at_most(x, y),
        x matches Key::Number(a) ==> (y matches Key::Number(b) ==> (key_at_most(x, y) <==> a <= b)),
        x matches Key::Text(a) ==> (y matches Key::Text(b) ==> (0 <= n <= a.len() && n <= b.len()
            && (forall|i: int| 0 <= i < n ==> a[i] == b[i]) ==> {
            &&& n == a.len() ==> key_at_most(x, y)
            &&& n == b.len() && n < a.len() ==> !key_at_most(x, y)
            &&& n < a.len() && n < b.len() && a[n] < b[n] ==> key_at_most(x, y)
            &&& n < a.len() && n < b.len() && a[n] > b[n] ==> !key_at_most(x, y)
        })),
{
    if let (Key::Text(a), Key::Text(b)) = (x, y) {
        if 0 <= n <= a.len() && n <= b.len() && (forall|i: int| 0 <= i < n ==> a[i] == b[i]) {
            lemma_common_prefix(a, b, n);
            lemma_common_prefix(b, a, n);
        }
    }
}

/// The key of a row is what the row holds: the number, the text, or that there is none. A logical
/// type has the number that stores it, a categorical the text of its code, `false` is less than
/// `true`.
pub proof fn law_the_key_of_a_row_is_its_value(d: Data, i: int)
    requires
        0 <= i < row_keys(d).len(),
    ensures
        d is Null ==> row_keys(d)[i] == Key::Null,
        d matches Data::Boolean(v) ==> row_keys(d)[i] == (match v@[i] {
            Some(true) => Key::Number(1),
            Some(false) => Key::Number(0),
            None => Key::Null,
        }),
        d matches Data::Int(v) ==> row_keys(d)[i] == (match v@[i] {
            Some(x) => Key::Number(x as int),
            None => Key::Null,
        }),
        d matches Data::UInt(v) ==> row_keys(d)[i] == (match v@[i] {
            Some(x) => Key::Number(x as int),
            None => Key::Null,
        }),
        d matches Data::Float(v) ==> row_keys(d)[i] == (match v@[i] {
            Some(x) => if 0x7ff0_0000_0000_0000 < x.bits < 0x8000_0000_0000_0000 || x.bits
                > 0xfff0_0000_0000_0000 {
                Key::NoNumber
            } else if x.bits >= 0x8000_0000_0000_0000 {
                Key::Number(0x8000_0000_0000_0000 - x.bits)
            } else {
                Key::Number(x.bits as int)
            },
            None => Key::Null,
        }),
        d matches Data::String(v) ==> row_keys(d)[i] == (match v@[i] {
            Some(x) => Key::Text(x@),
            None => Key::Null,
        }),
        d matches Data::Binary(v) ==> row_keys(d)[i] == (match v@[i] {
            Some(x) => Key::Text(x@),
            None => Key::Null,
        }),
        d matches Data::BinaryOffset(v) ==> row_keys(d)[i] == (match v@[i] {
            Some(x) => Key::Text(x@),
            None => Key::Null,
        }),
        d matches Data::Rows(v) ==> row_keys(d)[i] == Key::Text(v@[i]@),
        d matches Data::Struct(s) ==> row_keys(d)[i] == Key::Text(s.rows@[i]@),
        d matches Data::Logical(s) ==> (s.data matches Data::Int(v) ==> row_keys(d)[i]
            == (match v@[i] {
            Some(x) => Key::Number(x as int),
            None => Key::Null,
        })),
        d matches Data::Categorical(s, names) ==> (s.data matches Data::UInt(v) ==> row_keys(d)[i]
            == (match v@[i] {
            Some(c) => Key::Text(names@[c as int]@),
            None => Key::Null,
        })),
{
}

/// A column has a key per row, unless it is of a type that cannot be a key.
pub proof fn law_every_row_has_a_key(s: Series)
    requires
        s.wf(),
    ensures
        s.data is Extension || s.data is Opaque ==> row_keys(s.data).len() == 0,
        !(s.data is Extension) && !(s.data is Opaque) ==> row_keys(s.data).len() == data_len(
            s.data,
        ),
{
    reveal_with_fuel(data_len, 2);
}

/// Which key columns frames can be merged by: all but those of extension types and of what is
/// opaque. Of columns of nulls every row is taken from the left.
pub proof fn law_which_columns_can_be_keys(lhs: Series, rhs: Series)
    requires
        same_type(lhs, rhs),
    ensures
        key_merge_order(lhs.data, rhs.data) is Some <==> !(lhs.data is Extension) && !(lhs.data
            is Opaque),
        lhs.data matches Data::Null(m) ==> (rhs.data matches Data::Null(n) ==> {
            let order = key_merge_order(lhs.data, rhs.data)->0;
            &&& order.len() == m + n
            &&& forall|p: int| 0 <= p < order.len() ==> #[trigger] order[p] == 0
        }),
{
}

/// In every place a merge of two key columns looks at the first row of each that it has not taken.
/// It takes that of the left one where its key is at or before that of the right one, and else
/// that of the right one; where only one column has rows left, it takes the next of them.
pub proof fn law_rows_are_taken_by_their_keys(lhs: Series, rhs: Series, p: int)
    requires
        same_type(lhs, rhs),
        key_merge_order(lhs.data, rhs.data) is Some,
        !(lhs.data is Null),
        0 <= p < key_merge_order(lhs.data, rhs.data)->0.len(),
    ensures
        ({
            let order = key_merge_order(lhs.data, rhs.data)->0;
            let a = row_keys(lhs.data);
            let b = row_keys(rhs.data);
            let i = order.take(p).to_multiset().count(0) as int;
            let j = order.take(p).to_multiset().count(1) as int;
            &&& order.len() == a.len() + b.len()
            &&& i + j == p && i <= a.len() && j <= b.len()
            &&& order[p] == 0 || order[p] == 1
            &&& order[p] == 0 <==> i < a.len() && (j == b.len() || key_at_most(a[i], b[j]))
        }),
{
    lemma_key_order_by_keys(lhs, rhs);
    law_merge_takes_a_head(row_keys(lhs.data), row_keys(rhs.data), key_rank(), p);
}

/// A key column is sorted where no row comes after one whose key is not at or before its own.
pub proof fn law_sorted_keys_ascend(d: Data)
    ensures
        key_sorted(d) <==> forall|i: int, j: int|
            0 <= i < j < row_keys(d).len() ==> key_at_most(
                #[trigger] row_keys(d)[i],
                #[trigger] row_keys(d)[j],
            ),
{
    let ks = row_keys(d);
    let le = key_rank();
    if key_sorted(d) {
        assert forall|i: int, j: int| 0 <= i < j < ks.len() implies key_at_most(
            #[trigger] ks[i],
            #[trigger] ks[j],
        ) by {
            assert(le(ks[i], ks[j]));
        }
    }
}

/// A merge of many inputs takes, in every place, of the inputs that have elements left one whose
/// next key is least. It stays with the input that it took from last where that has such a key
/// next, and else turns to the earliest input that has one.
pub proof fn law_many_inputs_give_the_least_key<K: Ord>(keys: Seq<Seq<K>>, order: Seq<u8>, p: int)
    requires
        lawful::<K>(),
        keys.len() <= 256,
        is_many_order(keys, order),
        0 <= p < order.len(),
    ensures
        ({
            let done = order.take(p);
            let i = order[p] as int;
            let x = keys[i][done.to_multiset().count(order[p]) as int];
            &&& i < keys.len()
            &&& done.to_multiset().count(order[p]) < keys[i].len()
            &&& forall|j: int|
                0 <= j < keys.len() && done.to_multiset().count(j as u8) < (
                #[trigger] keys[j]).len() ==> key_le(
                    x,
                    keys[j][done.to_multiset().count(j as u8) as int],
                )
            &&& p > 0 && order[p - 1] != order[p] && done.to_multiset().count(order[p - 1])
                < keys[order[p - 1] as int].len() ==> !key_le(
                keys[order[p - 1] as int][done.to_multiset().count(order[p - 1]) as int],
                x,
            )
            &&& p == 0 || order[p - 1] != order[p] ==> forall|j: int|
                0 <= j < i && done.to_multiset().count(j as u8) < (#[trigger] keys[j]).len()
                    ==> !key_le(keys[j][done.to_multiset().count(j as u8) as int], x)
        }),
{
    let done = order.take(p);
    let i = order[p] as int;
    assert forall|x: u8| #[trigger] occurrences(done, x) == done.to_multiset().count(x) by {
        law_occurrences_are_counted(done, x);
    }
    lemma_key_order::<K>();
    assert(takes(keys, done, i));
    assert(i < lens(keys).len());
    let goes_on = done.len() > 0 && keeps_on(keys, done, done.last() as int);
    let x = head(keys, done, i);
    assert(has_more(keys, done, i));
    assert forall|j: int|
        0 <= j < keys.len() && done.to_multiset().count(j as u8) < (
        #[trigger] keys[j]).len() implies key_le(x, head(keys, done, j)) by {
        assert(has_more(keys, done, j));
        if j != i && !goes_on {
            assert(comes_next(keys, done, i));
            lemma_sooner(
                entry_of(keys, done, i),
                entry_of(keys, done, j),
                entry_of(keys, done, i),
            );
        }
    }
    if p > 0 {
        assert(done.last() == order[p - 1]);
        let q = order[p - 1] as int;
        if q != i && has_more(keys, done, q) {
            assert(!goes_on);
            assert(!keeps_on(keys, done, q));
            let j = choose|j: int|
                j != q && #[trigger] has_more(keys, done, j) && !key_le(
                    head(keys, done, q),
                    head(keys, done, j),
                );
            assert(keys[j].len() > 0);
            let le = key_order::<K>();
            assert(le(x, head(keys, done, j)));
            if le(head(keys, done, q), x) {
                assert(le(head(keys, done, q), head(keys, done, j)));
            }
        }
    }
    if p == 0 || order[p - 1] != order[p] {
        assert(comes_next(keys, done, i));
        assert forall|j: int|
            0 <= j < i && done.to_multiset().count(j as u8) < (
            #[trigger] keys[j]).len() implies !key_le(head(keys, done, j), x) by {
            assert(has_more(keys, done, j));
        }
    }
}

/// A merge of many inputs takes every element of every input.
pub proof fn law_many_inputs_give_every_element<K: Ord>(
    keys: Seq<Seq<K>>,
    order: Seq<u8>,
    k: int,
)
    requires
        keys.len() <= 256,
        is_many_order(keys, order),
        0 <= k < keys.len(),
    ensures
        order.to_multiset().count(k as u8) == keys[k].len(),
        forall|p: int| 0 <= p < order.len() ==> (#[trigger] order[p]) < keys.len(),
{
    law_occurrences_are_counted(order, k as u8);
    assert(occurrences(order, k as u8) == lens(keys)[(k as u8) as int]);
}

/// Frames are merged at once where their keys are numbers, or stored as such, and no row of any of
/// them is null.
pub proof fn law_numbers_without_nulls_merge_at_once(keys: Seq<Series>)
    requires
        keys.len() > 0,
    ensures
        keys[0].data is Int ==> (by_number(keys) <==> forall|k: int|
            0 <= k < keys.len() ==> ((#[trigger] keys[k]).data matches Data::Int(v) && forall|
                r: int,
            |
                0 <= r < v@.len() ==> (#[trigger] v@[r]) is Some)),
        keys[0].data is UInt ==> (by_number(keys) <==> forall|k: int|
            0 <= k < keys.len() ==> ((#[trigger] keys[k]).data matches Data::UInt(v) && forall|
                r: int,
            |
                0 <= r < v@.len() ==> (#[trigger] v@[r]) is Some)),
        keys[0].data is Float ==> (by_number(keys) <==> forall|k: int|
            0 <= k < keys.len() ==> ((#[trigger] keys[k]).data matches Data::Float(v) && forall|
                r: int,
            |
                0 <= r < v@.len() ==> (#[trigger] v@[r]) is Some)),
        keys[0].data is Logical ==> (by_number(keys) <==> forall|k: int|
            0 <= k < keys.len() ==> ((#[trigger] keys[k]).data matches Data::Logical(s) && (s.data
                matches Data::Int(v) && forall|r: int|
                0 <= r < v@.len() ==> (#[trigger] v@[r]) is Some))),
        keys[0].data is Categorical ==> (by_number(keys) <==> forall|k: int|
            0 <= k < keys.len() ==> ((#[trigger] keys[k]).data matches Data::Categorical(s, _) && (
            s.data matches Data::UInt(v) && forall|r: int|
                0 <= r < v@.len() ==> (#[trigger] v@[r]) is Some))),
        keys[0].data is Null || keys[0].data is Boolean || keys[0].data is String || keys[0].data
            is Binary || keys[0].data is BinaryOffset || keys[0].data is Rows || keys[0].data
            is Struct || keys[0].data is Extension || keys[0].data is Opaque ==> !by_number(keys),
{
    let first = keys[0].data;
    if first is Int {
        assert(by_number(keys) <==> all_of::<IntKeys>(keys));
    } else if first is UInt {
        assert(by_number(keys) <==> all_of::<UIntKeys>(keys));
    } else if first is Float {
        assert(by_number(keys) <==> all_of::<FloatKeys>(keys));
    } else if first is Logical {
        assert(by_number(keys) <==> all_of::<LogicalKeys>(keys));
    } else if first is Categorical {
        assert(by_number(keys) <==> all_of::<CodeKeys>(keys));
    }
}

/// The key values of a numeric column without nulls are its values, one per row; those of floating
/// point numbers are their ranks.
pub proof fn law_key_values_are_the_values(d: Data, i: int)
    ensures
        d matches Data::Int(v) ==> {
            &&& IntKeys::values(d) is Some <==> forall|r: int|
                0 <= r < v@.len() ==> (#[trigger] v@[r]) is Some
            &&& IntKeys::values(d) matches Some(s) ==> s.len() == v@.len() && (0 <= i < v@.len()
                ==> s[i] == v@[i]->0)
        },
        d matches Data::UInt(v) ==> {
            &&& UIntKeys::values(d) is Some <==> forall|r: int|
                0 <= r < v@.len() ==> (#[trigger] v@[r]) is Some
            &&& UIntKeys::values(d) matches Some(s) ==> s.len() == v@.len() && (0 <= i < v@.len()
                ==> s[i] == v@[i]->0)
        },
        d matches Data::Float(v) ==> {
            &&& FloatKeys::values(d) is Some <==> forall|r: int|
                0 <= r < v@.len() ==> (#[trigger] v@[r]) is Some
            &&& FloatKeys::values(d) matches Some(s) ==> s.len() == v@.len() && (0 <= i < v@.len()
                ==> s[i] as int == v@[i]->0.rank())
        },
        d matches Data::Logical(s) ==> LogicalKeys::values(d) == IntKeys::values(s.data),
        d matches Data::Categorical(s, _) ==> CodeKeys::values(d) == UIntKeys::values(s.data),
        !(d is Int) ==> IntKeys::values(d) is None,
        !(d is UInt) ==> UIntKeys::values(d) is None,
        !(d is Float) ==> FloatKeys::values(d) is None,
        !(d is Logical) ==> LogicalKeys::values(d) is None,
        !(d is Categorical) ==> CodeKeys::values(d) is None,
{
}

/// The order in which frames are merged at once takes every row of every frame.
pub proof fn law_frames_at_once_give_every_row(keys: Seq<Series>, order: Seq<u8>, k: int)
    requires
        0 < keys.len() <= 256,
        by_number(keys),
        number_order(keys, order),
        0 <= k < keys.len(),
    ensures
        order.to_multiset().count(k as u8) == data_len(keys[k].data),
{
    law_occurrences_are_counted(order, k as u8);
    match keys[0].data {
        Data::Int(_) => {
            lemma_every_row::<IntKeys>(keys, order, k);
        },
        Data::UInt(_) => {
            lemma_every_row::<UIntKeys>(keys, order, k);
        },
        Data::Float(_) => {
            lemma_every_row::<FloatKeys>(keys, order, k);
        },
        Data::Logical(_) => {
            lemma_every_row::<LogicalKeys>(keys, order, k);
        },
        _ => {
            lemma_every_row::<CodeKeys>(keys, order, k);
        },
    }
}

proof fn lemma_every_row<P: Numeric>(keys: Seq<Series>, order: Seq<u8>, k: int)
    requires
        0 < keys.len() <= 256,
        all_of::<P>(keys),
        is_many_order(key_values_of::<P>(keys), order),
        0 <= k < keys.len(),
    ensures
        occurrences(order, k as u8) == data_len(keys[k].data),
{
    let lists = key_values_of::<P>(keys);
    assert(P::values(keys[k].data) is Some);
    P::lemma_len(keys[k].data);
    assert(occurrences(order, k as u8) == lens(lists)[(k as u8) as int]);
}

/// Frames that are merged at once give, in every place, a row whose key is least among the next
/// rows of all frames that have some left. The merge stays with the frame that it took from last
/// where that has such a key next, and else turns to the earliest frame that has one.
pub proof fn law_frames_at_once_give_the_least_key(keys: Seq<Series>, order: Seq<u8>, p: int)
    requires
        0 < keys.len() <= 256,
        by_number(keys),
        number_order(keys, order),
        0 <= p < order.len(),
    ensures
        ({
            let value = |k: int, r: int|
                match keys[k].data {
                    Data::Int(v) => v@[r]->0 as int,
                    Data::UInt(v) => v@[r]->0 as int,
                    Data::Float(v) => v@[r]->0.rank(),
                    Data::Logical(s) => match s.data {
                        Data::Int(v) => v@[r]->0 as int,
                        _ => 0,
                    },
                    Data::Categorical(s, _) => match s.data {
                        Data::UInt(v) => v@[r]->0 as int,
                        _ => 0,
                    },
                    _ => 0,
                };
            let done = order.take(p);
            let i = order[p] as int;
            let x = value(i, done.to_multiset().count(order[p]) as int);
            &&& i < keys.len()
            &&& done.to_multiset().count(order[p]) < data_len(keys[i].data)
            &&& forall|j: int|
                0 <= j < keys.len() && done.to_multiset().count(j as u8) < data_len(
                    (#[trigger] keys[j]).data,
                ) ==> x <= value(j, done.to_multiset().count(j as u8) as int)
            &&& p > 0 && order[p - 1] != order[p] && done.to_multiset().count(order[p - 1])
                < data_len(keys[order[p - 1] as int].data) ==> x < value(
                order[p - 1] as int,
                done.to_multiset().count(order[p - 1]) as int,
            )
            &&& p == 0 || order[p - 1] != order[p] ==> forall|j: int|
                0 <= j < i && done.to_multiset().count(j as u8) < data_len(
                    (#[trigger] keys[j]).data,
                ) ==> x < value(j, done.to_multiset().count(j as u8) as int)
        }),
{
    match keys[0].data {
        Data::Int(_) => {
            lemma_least_value::<IntKeys>(keys, order, p, |x: i128| x as int);
        },
        Data::UInt(_) => {
            lemma_least_value::<UIntKeys>(keys, order, p, |x: u128| x as int);
        },
        Data::Float(_) => {
            lemma_least_value::<FloatKeys>(keys, order, p, |x: i128| x as int);
        },
        Data::Logical(_) => {
            lemma_least_value::<LogicalKeys>(keys, order, p, |x: i128| x as int);
        },
        _ => {
            lemma_least_value::<CodeKeys>(keys, order, p, |x: u128| x as int);
        },
    }
}

/// The same for one kind of key, whose values are ranked by a number.
proof fn lemma_least_value<P: Numeric>(
    keys: Seq<Series>,
    order: Seq<u8>,
    p: int,
    number: spec_fn(P::K) -> int,
)
    requires
        0 < keys.len() <= 256,
        all_of::<P>(keys),
        is_many_order(key_values_of::<P>(keys), order),
        0 <= p < order.len(),
        forall|x: P::K, y: P::K| #[trigger] key_le(x, y) <==> number(x) <= number(y),
    ensures
        ({
            let value = |k: int, r: int| number(P::values(keys[k].data)->0[r]);
            let done = order.take(p);
            let i = order[p] as int;
            let x = value(i, done.to_multiset().count(order[p]) as int);
            &&& i < keys.len()
            &&& forall|j: int|
                0 <= j < keys.len() ==> P::values((#[trigger] keys[j]).data)->0.len() == data_len(
                    keys[j].data,
                )
            &&& done.to_multiset().count(order[p]) < data_len(keys[i].data)
            &&& forall|j: int|
                0 <= j < keys.len() && done.to_multiset().count(j as u8) < data_len(
                    (#[trigger] keys[j]).data,
                ) ==> x <= value(j, done.to_multiset().count(j as u8) as int)
            &&& p > 0 && order[p - 1] != order[p] && done.to_multiset().count(order[p - 1])
                < data_len(keys[order[p - 1] as int].data) ==> x < value(
                order[p - 1] as int,
                done.to_multiset().count(order[p - 1]) as int,
            )
            &&& p == 0 || order[p - 1] != order[p] ==> forall|j: int|
                0 <= j < i && done.to_multiset().count(j as u8) < data_len(
                    (#[trigger] keys[j]).data,
                ) ==> x < value(j, done.to_multiset().count(j as u8) as int)
        }),
{
    let lists = key_values_of::<P>(keys);
    P::lemma_lawful();
    assert forall|j: int| 0 <= j < keys.len() implies P::values(
        (#[trigger] keys[j]).data,
    )->0.len() == data_len(keys[j].data) && lists[j] == P::values(keys[j].data)->0 by {
        assert(P::values(keys[j].data) is Some);
        P::lemma_len(keys[j].data);
    }
    law_many_inputs_give_the_least_key(lists, order, p);
    let done = order.take(p);
    let i = order[p] as int;
    assert(keys[i] == keys[i]);
    let x = lists[i][done.to_multiset().count(order[p]) as int];
    assert forall|j: int|
        0 <= j < keys.len() && done.to_multiset().count(j as u8) < data_len(
            (#[trigger] keys[j]).data,
        ) implies number(x) <= number(
        P::values(keys[j].data)->0[done.to_multiset().count(j as u8) as int],
    ) by {
        assert(key_le(x, lists[j][done.to_multiset().count(j as u8) as int]));
    }
    if p > 0 {
        let q = order[p - 1] as int;
        assert(done[p - 1] == order[p - 1]);
        law_many_inputs_give_the_least_key(lists, order, p - 1);
        assert(keys[q] == keys[q]);
    }
    if p == 0 || order[p - 1] != order[p] {
        assert forall|j: int|
            0 <= j < i && done.to_multiset().count(j as u8) < data_len(
                (#[trigger] keys[j]).data,
            ) implies number(x) < number(
            P::values(keys[j].data)->0[done.to_multiset().count(j as u8) as int],
        ) by {
            assert(lists[j].len() == data_len(keys[j].data));
            assert(!key_le(lists[j][done.to_multiset().count(j as u8) as int], x));
        }
    }
}

} // verus!
