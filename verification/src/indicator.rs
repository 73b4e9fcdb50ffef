//! The order in which two key columns merge.
use crate::cells::{Bytes, Cell};
use crate::frame::{
    codes, data_len, data_ok, same_type, stored, stored_right, Data, MergeError, Series,
};
use crate::merge::{get_merge_indicator, merge_order, order_of, uses_up};
use crate::merge_laws::law_merge_takes_every_element;
use vstd::prelude::*;

verus! {

/// The text of each row of a categorical column.
pub open spec fn texts(codes: Seq<Option<u128>>, names: Seq<Bytes>) -> Seq<Option<Bytes>> {
    Seq::new(
        codes.len(),
        |i: int|
            match codes[i] {
                Some(c) => Some(names[c as int]),
                None => None,
            },
    )
}

/// Truth values as numbers, `false` before `true`.
pub open spec fn bits(v: Seq<Option<bool>>) -> Seq<Option<u8>> {
    Seq::new(
        v.len(),
        |i: int|
            match v[i] {
                Some(b) => Some(
                    if b {
                        1u8
                    } else {
                        0u8
                    },
                ),
                None => None,
            },
    )
}

/// The order in which key columns of one type merge, if they can. Nulls go first. Categoricals go
/// by their text, nested columns by their row encodings. Of columns of nulls every row is taken
/// from the left.
pub open spec fn key_merge_order(lhs: Data, rhs: Data) -> Option<Seq<u8>> {
    match (lhs, rhs) {
        (Data::Categorical(a, x), Data::Categorical(b, y)) => Some(
            merge_order(
                texts(codes(a.data), x@),
                texts(codes(b.data), y@),
                order_of::<Option<Bytes>>(),
            ),
        ),
        (Data::Logical(a), Data::Logical(b)) => Some(
            merge_order(stored(a.data), stored(b.data), order_of::<Option<i128>>()),
        ),
        (Data::Rows(a), Data::Rows(b)) => Some(merge_order(a@, b@, order_of::<Bytes>())),
        (Data::Struct(a), Data::Struct(b)) => Some(
            merge_order(a.rows@, b.rows@, order_of::<Bytes>()),
        ),
        (Data::Null(a), Data::Null(b)) => Some(Seq::new((a + b) as nat, |p: int| 0u8)),
        (Data::Boolean(a), Data::Boolean(b)) => Some(
            merge_order(bits(a@), bits(b@), order_of::<Option<u8>>()),
        ),
        (Data::Binary(a), Data::Binary(b)) => Some(
            merge_order(a@, b@, order_of::<Option<Bytes>>()),
        ),
        (Data::String(a), Data::String(b)) => Some(
            merge_order(a@, b@, order_of::<Option<Bytes>>()),
        ),
        (Data::BinaryOffset(a), Data::BinaryOffset(b)) => Some(
            merge_order(a@, b@, order_of::<Option<Bytes>>()),
        ),
        (Data::Int(a), Data::Int(b)) => Some(merge_order(a@, b@, order_of())),
        (Data::UInt(a), Data::UInt(b)) => Some(merge_order(a@, b@, order_of())),
        (Data::Float(a), Data::Float(b)) => Some(merge_order(a@, b@, order_of())),
        _ => None,
    }
}

/// The order takes every row of both columns, unless they are columns of nulls.
pub proof fn lemma_key_order_uses_up(lhs: Data, rhs: Data)
    requires
        key_merge_order(lhs, rhs) is Some,
        !(lhs is Null),
        stored_right(lhs),
        stored_right(rhs),
    ensures
        uses_up(seq![data_len(lhs), data_len(rhs)], key_merge_order(lhs, rhs)->0),
        key_merge_order(lhs, rhs)->0.len() == data_len(lhs) + data_len(rhs),
{
    reveal_with_fuel(data_len, 2);
    match (lhs, rhs) {
        (Data::Categorical(a, x), Data::Categorical(b, y)) => {
            law_merge_takes_every_element(
                texts(codes(a.data), x@),
                texts(codes(b.data), y@),
                order_of::<Option<Bytes>>(),
            );
        },
        (Data::Logical(a), Data::Logical(b)) => {
            law_merge_takes_every_element(
                stored(a.data),
                stored(b.data),
                order_of::<Option<i128>>(),
            );
        },
        (Data::Rows(a), Data::Rows(b)) => {
            law_merge_takes_every_element(a@, b@, order_of::<Bytes>());
        },
        (Data::Struct(a), Data::Struct(b)) => {
            law_merge_takes_every_element(a.rows@, b.rows@, order_of::<Bytes>());
        },
        (Data::Boolean(a), Data::Boolean(b)) => {
            law_merge_takes_every_element(bits(a@), bits(b@), order_of::<Option<u8>>());
        },
        (Data::Binary(a), Data::Binary(b)) => {
            law_merge_takes_every_element(a@, b@, order_of::<Option<Bytes>>());
        },
        (Data::String(a), Data::String(b)) => {
            law_merge_takes_every_element(a@, b@, order_of::<Option<Bytes>>());
        },
        (Data::BinaryOffset(a), Data::BinaryOffset(b)) => {
            law_merge_takes_every_element(a@, b@, order_of::<Option<Bytes>>());
        },
        (Data::Int(a), Data::Int(b)) => {
            law_merge_takes_every_element(a@, b@, order_of());
        },
        (Data::UInt(a), Data::UInt(b)) => {
            law_merge_takes_every_element(a@, b@, order_of());
        },
        (Data::Float(a), Data::Float(b)) => {
            law_merge_takes_every_element(a@, b@, order_of());
        },
        _ => {},
    }
}

/// The text of each row of a categorical column.
fn iter_text(codes: &Vec<Option<u128>>, names: &Vec<Bytes>) -> (out: Vec<Option<Bytes>>)
    requires
        forall|i: int|
            0 <= i < codes@.len() ==> ((#[trigger] codes@[i]) matches Some(c) ==> c
                < names@.len()),
    ensures
        out@ == texts(codes@, names@),
{
    let mut out: Vec<Option<Bytes>> = Vec::with_capacity(codes.len());
    let mut i: usize = 0;
    while i < codes.len()
        invariant
            i <= codes@.len(),
            forall|i: int|
                0 <= i < codes@.len() ==> ((#[trigger] codes@[i]) matches Some(c) ==> c
                    < names@.len()),
            out@ == texts(codes@, names@).take(i as int),
        decreases codes@.len() - i,
    {
        match codes[i] {
            Some(c) => {
                proof {
                    assert(c < names.len());
                }
                out.push(Some(names[c as usize].dup()));
            },
            None => {
                out.push(None);
            },
        }
        i += 1;
    }
    out
}

/// Truth values as numbers, `false` before `true`.
fn iter_bits(v: &Vec<Option<bool>>) -> (out: Vec<Option<u8>>)
    ensures
        out@ == bits(v@),
{
    let mut out: Vec<Option<u8>> = Vec::with_capacity(v.len());
    let mut i: usize = 0;
    while i < v.len()
        invariant
            i <= v@.len(),
            out@ == bits(v@).take(i as int),
        decreases v@.len() - i,
    {
        match v[i] {
            Some(true) => {
                out.push(Some(1));
            },
            Some(false) => {
                out.push(Some(0));
            },
            None => {
                out.push(None);
            },
        }
        i += 1;
    }
    out
}

/// `n` times 0.
fn zeros(n: usize) -> (out: Vec<u8>)
    ensures
        out@ == Seq::new(n as nat, |p: int| 0u8),
{
    let mut out: Vec<u8> = Vec::with_capacity(n);
    let mut i: usize = 0;
    while i < n
        invariant
            i <= n,
            out@ =~= Seq::new(i as nat, |p: int| 0u8),
        decreases n - i,
    {
        out.push(0);
        i += 1;
    }
    out
}

/// Produces the order in which the rows of two key columns of one type merge.
pub fn series_to_merge_indicator(lhs: &Series, rhs: &Series) -> (res: Result<Vec<u8>, MergeError>)
    requires
        lhs.wf(),
        rhs.wf(),
        same_type(*lhs, *rhs),
        key_merge_order(lhs.data, rhs.data) is Some ==> lhs.spec_len() + rhs.spec_len()
            <= usize::MAX,
    ensures
        match key_merge_order(lhs.data, rhs.data) {
            Some(order) => res matches Ok(out) && out@ == order,
            None => res == Err::<Vec<u8>, MergeError>(
                MergeError::Unsupported { dtype: lhs.dtype },
            ),
        },
{
    proof {
        reveal_with_fuel(data_len, 2);
        reveal_with_fuel(data_ok, 2);
    }
    match (&lhs.data, &rhs.data) {
        (Data::Categorical(a, x), Data::Categorical(b, y)) => {
            match (&a.data, &b.data) {
                (Data::UInt(v), Data::UInt(w)) => {
                    let left = iter_text(v, x);
                    let right = iter_text(w, y);
                    Ok(get_merge_indicator(left.as_slice(), right.as_slice()))
                },
                _ => Err(MergeError::Unsupported { dtype: lhs.dtype.clone() }),
            }
        },
        (Data::Logical(a), Data::Logical(b)) => {
            match (&a.data, &b.data) {
                (Data::Int(v), Data::Int(w)) => Ok(
                    get_merge_indicator(v.as_slice(), w.as_slice()),
                ),
                _ => Err(MergeError::Unsupported { dtype: lhs.dtype.clone() }),
            }
        },
        (Data::Rows(a), Data::Rows(b)) => Ok(get_merge_indicator(a.as_slice(), b.as_slice())),
        (Data::Struct(a), Data::Struct(b)) => Ok(
            get_merge_indicator(a.rows.as_slice(), b.rows.as_slice()),
        ),
        (Data::Null(a), Data::Null(b)) => Ok(zeros(*a + *b)),
        (Data::Boolean(a), Data::Boolean(b)) => {
            let left = iter_bits(a);
            let right = iter_bits(b);
            Ok(get_merge_indicator(left.as_slice(), right.as_slice()))
        },
        (Data::Binary(a), Data::Binary(b)) => Ok(get_merge_indicator(a.as_slice(), b.as_slice())),
        (Data::String(a), Data::String(b)) => Ok(get_merge_indicator(a.as_slice(), b.as_slice())),
        (Data::BinaryOffset(a), Data::BinaryOffset(b)) => Ok(
            get_merge_indicator(a.as_slice(), b.as_slice()),
        ),
        (Data::Int(a), Data::Int(b)) => Ok(get_merge_indicator(a.as_slice(), b.as_slice())),
        (Data::UInt(a), Data::UInt(b)) => Ok(get_merge_indicator(a.as_slice(), b.as_slice())),
        (Data::Float(a), Data::Float(b)) => Ok(get_merge_indicator(a.as_slice(), b.as_slice())),
        _ => Err(MergeError::Unsupported { dtype: lhs.dtype.clone() }),
    }
}

} // verus!
