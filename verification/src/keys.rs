//! The keys of the rows of a column, with the one order that merges go by.
use crate::cells::{lemma_lex, lex_le, Bytes, Float64};
use crate::frame::{codes, data_len, physical_data, same_type, stored, Data, Series};
use crate::gather::{
    merge_of, row_counts, sources, Binaries, Booleans, Encodings, Floats, Ints, Physical, Strings,
    UInts,
};
use crate::indicator::{bits, key_merge_order, texts};
use crate::merge::{
    all_among, at_most, lens, merge_order, occurrences, order_of, sorted, total_preorder_among,
    transitive, uses_up, weave,
};
use crate::merge_laws::{law_merge_is_sorted_among, law_merge_is_weave, lemma_occurrences_step};
use vstd::prelude::*;

verus! {

/// The key of a row.
pub enum Key {
    Null,
    /// Numbers and truth values; floating point numbers by their rank.
    Number(int),
    /// A floating point value that is no number.
    NoNumber,
    /// Text, binary values and row encodings, by their bytes.
    Text(Seq<u8>),
}

/// `x` is at or before `y`. Nulls go first; what is no number is before and after nothing.
pub open spec fn key_at_most(x: Key, y: Key) -> bool {
    match (x, y) {
        (Key::Null, _) => true,
        (Key::Number(a), Key::Number(b)) => a <= b,
        (Key::Text(a), Key::Text(b)) => lex_le(a, b),
        _ => false,
    }
}

/// `key_at_most` as a function value.
pub open spec fn key_rank() -> spec_fn(Key, Key) -> bool {
    |x: Key, y: Key| key_at_most(x, y)
}

/// The key of a signed integer.
pub open spec fn int_key() -> spec_fn(Option<i128>) -> Key {
    |x: Option<i128>|
        match x {
            Some(v) => Key::Number(v as int),
            None => Key::Null,
        }
}

/// The key of an unsigned integer.
pub open spec fn uint_key() -> spec_fn(Option<u128>) -> Key {
    |x: Option<u128>|
        match x {
            Some(v) => Key::Number(v as int),
            None => Key::Null,
        }
}

/// The key of a truth value: `false` before `true`.
pub open spec fn bool_key() -> spec_fn(Option<bool>) -> Key {
    |x: Option<bool>|
        match x {
            Some(v) => Key::Number(
                if v {
                    1
                } else {
                    0
                },
            ),
            None => Key::Null,
        }
}

/// The key of a floating point number.
pub open spec fn float_key() -> spec_fn(Option<Float64>) -> Key {
    |x: Option<Float64>|
        match x {
            Some(v) => if v.is_nan() {
                Key::NoNumber
            } else {
                Key::Number(v.rank())
            },
            None => Key::Null,
        }
}

/// The key of a text or binary value.
pub open spec fn text_key() -> spec_fn(Option<Bytes>) -> Key {
    |x: Option<Bytes>|
        match x {
            Some(v) => Key::Text(v@),
            None => Key::Null,
        }
}

/// The key of a row encoding.
pub open spec fn row_key() -> spec_fn(Bytes) -> Key {
    |x: Bytes| Key::Text(x@)
}

/// The key of a code that stands for one of `names`.
pub open spec fn code_key(names: Seq<Bytes>) -> spec_fn(Option<u128>) -> Key {
    |x: Option<u128>|
        match x {
            Some(c) => Key::Text(names[c as int]@),
            None => Key::Null,
        }
}

/// The keys of the rows of a column. Columns that cannot be keys have none.
pub open spec fn row_keys(d: Data) -> Seq<Key> {
    match d {
        Data::Null(n) => Seq::new(n as nat, |i: int| Key::Null),
        Data::Boolean(v) => v@.map_values(bool_key()),
        Data::Int(v) => v@.map_values(int_key()),
        Data::UInt(v) => v@.map_values(uint_key()),
        Data::Float(v) => v@.map_values(float_key()),
        Data::String(v) => v@.map_values(text_key()),
        Data::Binary(v) => v@.map_values(text_key()),
        Data::BinaryOffset(v) => v@.map_values(text_key()),
        Data::Logical(s) => stored(s.data).map_values(int_key()),
        Data::Categorical(s, names) => codes(s.data).map_values(code_key(names@)),
        Data::Rows(v) => v@.map_values(row_key()),
        Data::Struct(s) => s.rows@.map_values(row_key()),
        Data::Extension(_) => Seq::empty(),
        Data::Opaque(_) => Seq::empty(),
    }
}

/// The keys of each of several columns.
pub open spec fn keys_at(ss: Seq<Series>) -> Seq<Seq<Key>> {
    Seq::new(ss.len(), |k: int| row_keys(ss[k].data))
}

/// The rows of a key column are sorted.
pub open spec fn key_sorted(d: Data) -> bool {
    sorted(row_keys(d), key_rank())
}

/// No row of the column holds what is no number.
pub open spec fn has_no_nan(d: Data) -> bool {
    forall|i: int| 0 <= i < row_keys(d).len() ==> !((#[trigger] row_keys(d)[i]) is NoNumber)
}

/// Null, or a key of one kind.
pub open spec fn of_kind(textual: bool) -> spec_fn(Key) -> bool {
    |x: Key|
        x is Null || if textual {
            x is Text
        } else {
            x is Number
        }
}

/// Whether the keys of a column are text rather than numbers.
pub open spec fn is_textual(d: Data) -> bool {
    match d {
        Data::String(_) => true,
        Data::Binary(_) => true,
        Data::BinaryOffset(_) => true,
        Data::Categorical(_, _) => true,
        Data::Rows(_) => true,
        Data::Struct(_) => true,
        _ => false,
    }
}

/// The order of keys is transitive, and total among keys of one kind.
pub proof fn lemma_key_rank(textual: bool)
    ensures
        transitive(key_rank()),
        total_preorder_among(key_rank(), of_kind(textual)),
{
    let le = key_rank();
    let among = of_kind(textual);
    assert forall|x: Key, y: Key, z: Key| #[trigger] le(x, y) && #[trigger] le(y, z) implies le(
        x,
        z,
    ) by {
        match (x, y, z) {
            (Key::Text(a), Key::Text(b), Key::Text(c)) => {
                lemma_lex(a, b, c);
            },
            _ => {},
        }
    }
    assert forall|x: Key, y: Key| among(x) && among(y) implies #[trigger] le(x, y) || le(y, x) by {
        match (x, y) {
            (Key::Text(a), Key::Text(b)) => {
                lemma_lex(a, b, a);
            },
            _ => {},
        }
    }
}

/// The keys of a column without what is no number are of one kind.
pub proof fn lemma_one_kind(d: Data)
    requires
        has_no_nan(d),
    ensures
        all_among(row_keys(d), of_kind(is_textual(d))),
{
    let keys = row_keys(d);
    assert forall|i: int| 0 <= i < keys.len() implies of_kind(is_textual(d))(
        #[trigger] keys[i],
    ) by {
        assert(!(keys[i] is NoNumber));
    }
}

/// A merge by `le` is a merge by any order that ranks the images of the values the same way.
proof fn lemma_order_map<A, B>(
    a: Seq<A>,
    b: Seq<A>,
    le: spec_fn(A, A) -> bool,
    f: spec_fn(A) -> B,
    image_le: spec_fn(B, B) -> bool,
)
    requires
        forall|x: A, y: A| #[trigger] le(x, y) == image_le(f(x), f(y)),
    ensures
        merge_order(a, b, le) == merge_order(a.map_values(f), b.map_values(f), image_le),
    decreases a.len() + b.len(),
{
    let fa = a.map_values(f);
    let fb = b.map_values(f);
    if a.len() > 0 && b.len() > 0 {
        assert(le(a[0], b[0]) == image_le(fa[0], fb[0]));
        assert(a.drop_first().map_values(f) =~= fa.drop_first());
        assert(b.drop_first().map_values(f) =~= fb.drop_first());
        if le(a[0], b[0]) {
            lemma_order_map(a.drop_first(), b, le, f, image_le);
        } else {
            lemma_order_map(a, b.drop_first(), le, f, image_le);
        }
    } else {
        assert(merge_order(a, b, le) =~= merge_order(fa, fb, image_le));
    }
}

/// Two key columns of one type merge in the order of their keys.
pub proof fn lemma_key_order_by_keys(lhs: Series, rhs: Series)
    requires
        same_type(lhs, rhs),
        key_merge_order(lhs.data, rhs.data) is Some,
        !(lhs.data is Null),
    ensures
        key_merge_order(lhs.data, rhs.data) == Some(
            merge_order(row_keys(lhs.data), row_keys(rhs.data), key_rank()),
        ),
{
    let le = key_rank();
    match (lhs.data, rhs.data) {
        (Data::Categorical(a, x), Data::Categorical(b, y)) => {
            let ta = texts(codes(a.data), x@);
            let tb = texts(codes(b.data), y@);
            lemma_text_order(ta, tb);
            assert(ta.map_values(text_key()) =~= row_keys(lhs.data));
            assert(tb.map_values(text_key()) =~= row_keys(rhs.data));
        },
        (Data::Logical(a), Data::Logical(b)) => {
            lemma_order_map(stored(a.data), stored(b.data), order_of(), int_key(), le);
        },
        (Data::Rows(a), Data::Rows(b)) => {
            lemma_row_order(a@, b@);
        },
        (Data::Struct(a), Data::Struct(b)) => {
            lemma_row_order(a.rows@, b.rows@);
        },
        (Data::Boolean(a), Data::Boolean(b)) => {
            let f = |x: Option<u8>|
                match x {
                    Some(v) => Key::Number(v as int),
                    None => Key::Null,
                };
            lemma_order_map(bits(a@), bits(b@), order_of(), f, le);
            assert(bits(a@).map_values(f) =~= row_keys(lhs.data));
            assert(bits(b@).map_values(f) =~= row_keys(rhs.data));
        },
        (Data::Binary(a), Data::Binary(b)) => {
            lemma_text_order(a@, b@);
        },
        (Data::String(a), Data::String(b)) => {
            lemma_text_order(a@, b@);
        },
        (Data::BinaryOffset(a), Data::BinaryOffset(b)) => {
            lemma_text_order(a@, b@);
        },
        (Data::Int(a), Data::Int(b)) => {
            lemma_order_map(a@, b@, order_of(), int_key(), le);
        },
        (Data::UInt(a), Data::UInt(b)) => {
            lemma_order_map(a@, b@, order_of(), uint_key(), le);
        },
        (Data::Float(a), Data::Float(b)) => {
            lemma_order_map(a@, b@, order_of(), float_key(), le);
        },
        _ => {},
    }
}

/// Byte strings are ranked by their keys.
proof fn lemma_row_order(a: Seq<Bytes>, b: Seq<Bytes>)
    ensures
        merge_order(a, b, order_of::<Bytes>()) == merge_order(
            a.map_values(row_key()),
            b.map_values(row_key()),
            key_rank(),
        ),
{
    let le = order_of::<Bytes>();
    assert forall|x: Bytes, y: Bytes| #[trigger] le(x, y) == key_rank()(
        row_key()(x),
        row_key()(y),
    ) by {
        lemma_lex(x@, y@, x@);
    }
    lemma_order_map(a, b, le, row_key(), key_rank());
}

/// Byte strings that may be null are ranked by their keys.
proof fn lemma_text_order(a: Seq<Option<Bytes>>, b: Seq<Option<Bytes>>)
    ensures
        merge_order(a, b, order_of::<Option<Bytes>>()) == merge_order(
            a.map_values(text_key()),
            b.map_values(text_key()),
            key_rank(),
        ),
{
    let le = order_of::<Option<Bytes>>();
    assert forall|x: Option<Bytes>, y: Option<Bytes>| #[trigger] le(x, y) == key_rank()(
        text_key()(x),
        text_key()(y),
    ) by {
        if x is Some && y is Some {
            assert(at_most(x->0, y->0) == lex_le(x->0@, y->0@)) by {
                lemma_lex(x->0@, y->0@, x->0@);
            }
        }
    }
    lemma_order_map(a, b, le, text_key(), key_rank());
}

/// Mapping what is woven is weaving what is mapped.
pub proof fn lemma_weave_map<A, B>(
    from: Seq<Seq<A>>,
    to: Seq<Seq<B>>,
    f: spec_fn(A) -> B,
    order: Seq<u8>,
)
    requires
        from.len() == to.len(),
        uses_up(lens(from), order),
        forall|k: int| 0 <= k < from.len() ==> (#[trigger] to[k]) == from[k].map_values(f),
    ensures
        weave(to, order) == weave(from, order).map_values(f),
{
    assert forall|p: int| 0 <= p < order.len() implies weave(to, order)[p] == weave(
        from,
        order,
    ).map_values(f)[p] by {
        let x = order[p];
        assert(x < lens(from).len());
        lemma_occurrences_step(order, p, x);
        assert(occurrences(order, x) == lens(from)[x as int]);
        assert(to[x as int] == from[x as int].map_values(f));
    }
    assert(weave(to, order) =~= weave(from, order).map_values(f));
}

/// The keys of woven cells are the woven keys.
proof fn lemma_keys_woven<P: Physical>(
    out: Data,
    ss: Seq<Series>,
    f: spec_fn(P::C) -> Key,
    order: Seq<u8>,
)
    requires
        uses_up(row_counts(ss), order),
        P::cells(out) == Some(weave(sources::<P>(ss), order)),
        forall|k: int|
            0 <= k < ss.len() ==> {
                &&& P::cells((#[trigger] ss[k]).data) is Some
                &&& row_keys(ss[k].data) == (P::cells(ss[k].data)->0).map_values(f)
            },
    ensures
        (P::cells(out)->0).map_values(f) == weave(keys_at(ss), order),
{
    assert forall|k: int| 0 <= k < ss.len() implies #[trigger] lens(sources::<P>(ss))[k]
        == row_counts(ss)[k] by {
        assert(P::cells(ss[k].data) is Some);
        P::lemma_len(ss[k].data);
    }
    assert(lens(sources::<P>(ss)) =~= row_counts(ss));
    assert forall|k: int| 0 <= k < ss.len() implies #[trigger] keys_at(ss)[k] == sources::<P>(
        ss,
    )[k].map_values(f) by {
        assert(P::cells(ss[k].data) is Some);
    }
    lemma_weave_map(sources::<P>(ss), keys_at(ss), f, order);
}

/// The keys of a merged column are the keys of its columns, which have one type, woven along the
/// order.
pub proof fn lemma_merged_keys(out: Data, ss: Seq<Series>, order: Seq<u8>)
    requires
        ss.len() > 0,
        merge_of(out, ss, order),
        uses_up(row_counts(ss), order),
        forall|k: int| 0 <= k < ss.len() ==> (#[trigger] ss[k]).wf(),
        forall|k: int| 0 <= k < ss.len() ==> same_type(ss[0], #[trigger] ss[k]),
        !(ss[0].data is Null),
        !(ss[0].data is Extension),
    ensures
        row_keys(out) == weave(keys_at(ss), order),
{
    reveal_with_fuel(data_len, 2);
    reveal_with_fuel(same_type, 2);
    assert forall|k: int| 0 <= k < ss.len() implies (#[trigger] ss[k]).wf() && same_type(
        ss[0],
        ss[k],
    ) by {
        assert(ss[k].wf() && same_type(ss[0], ss[k]));
    }
    match ss[0].data {
        Data::Boolean(_) => {
            lemma_keys_woven::<Booleans>(out, ss, bool_key(), order);
        },
        Data::Int(_) => {
            lemma_keys_woven::<Ints>(out, ss, int_key(), order);
        },
        Data::UInt(_) => {
            lemma_keys_woven::<UInts>(out, ss, uint_key(), order);
        },
        Data::Float(_) => {
            lemma_keys_woven::<Floats>(out, ss, float_key(), order);
        },
        Data::String(_) => {
            lemma_keys_woven::<Strings>(out, ss, text_key(), order);
        },
        Data::Binary(_) => {
            lemma_keys_woven::<Binaries>(out, ss, text_key(), order);
        },
        Data::Rows(_) => {
            lemma_keys_woven::<Encodings>(out, ss, row_key(), order);
        },
        Data::Struct(_) => {
            lemma_keys_woven::<Encodings>(out, ss, row_key(), order);
        },
        Data::Logical(_) => {
            lemma_keys_woven::<Ints>(out, ss, int_key(), order);
        },
        Data::Categorical(_, names) => {
            let f = code_key(names@);
            assert forall|k: int| 0 <= k < ss.len() implies {
                &&& UInts::cells((#[trigger] ss[k]).data) is Some
                &&& row_keys(ss[k].data) == (UInts::cells(ss[k].data)->0).map_values(f)
            } by {
                assert(ss[k].wf() && same_type(ss[0], ss[k]));
                let cs = codes(physical_data(ss[k].data));
                let theirs = ss[k].data->Categorical_1@;
                assert forall|i: int| 0 <= i < cs.len() implies code_key(theirs)(
                    #[trigger] cs[i],
                ) == f(cs[i]) by {
                    if cs[i] is Some {
                        let c = cs[i]->0 as int;
                        assert(c < theirs.len());
                        assert(names@[c]@ == theirs[c]@);
                    }
                }
                assert(row_keys(ss[k].data) =~= cs.map_values(f));
            }
            lemma_keys_woven::<UInts>(out, ss, f, order);
        },
        _ => {},
    }
}

/// Reading two sequences along the order in which sorted sides merge gives them sorted.
pub proof fn lemma_woven_sorted<T>(
    a: Seq<T>,
    b: Seq<T>,
    le: spec_fn(T, T) -> bool,
    among: spec_fn(T) -> bool,
)
    requires
        total_preorder_among(le, among),
        all_among(a, among),
        all_among(b, among),
        sorted(a, le),
        sorted(b, le),
    ensures
        sorted(weave(seq![a, b], merge_order(a, b, le)), le),
        all_among(weave(seq![a, b], merge_order(a, b, le)), among),
{
    law_merge_is_sorted_among(a, b, le, among);
    law_merge_is_weave(a, b, le);
}

} // verus!
