//! What holds of every merge of frames.
use crate::cells::Float64;
use crate::frame::{
    column_of, common_width, follows, has_column, is_column, lemma_column_of, lemma_no_mismatch,
    lemma_type_width, same_type, same_width, schema_mismatch, stored_right, Data, DataFrame,
    FrameView, MergeError, Series,
};
use crate::gather::{
    fields_at, has_null_rows, is_column_merge, is_merge, merge_of, named, row_counts, sources,
    valid_rows, Floats, Ints, Physical, UInts,
};
use crate::heap::key_order;
use crate::indicator::{key_merge_order, lemma_key_order_uses_up};
use crate::keys::{
    has_no_nan, is_textual, key_at_most, key_rank, key_sorted, keys_at, lemma_key_order_by_keys,
    lemma_key_rank, lemma_merged_keys, lemma_one_kind, lemma_weave_map, lemma_woven_sorted,
    of_kind, row_keys,
};
use crate::merge::{all_among, lens, occurrences, sorted, uses_up, weave};
use crate::merge_frames::{columns_at, heights, lemma_total_two, two_way};
use crate::merge_laws::{law_merge_is_weave, law_merge_prefers_left, lemma_occurrences_step};
use crate::merge_many::{is_many_order, total};
use crate::merge_many_frames::{
    admitted, by_number, covers, kept, key_values_of, keys_of, lemma_kept_total, many_way,
    number_order, pairwise, ranks, schema_error, somes, CodeKeys, FloatKeys, IntKeys, LogicalKeys,
    Numeric, UIntKeys,
};
use crate::merge_many_laws::law_many_merge_is_sorted;
use crate::physical::law_merged_column_len;
use crate::shape::{foldable, lemma_merge_shape, lemma_shape_types, narrowed};
use vstd::prelude::*;

verus! {

/// A merge by key keeps the key sorted: where both key columns are, so is the merged one. Of
/// floating point keys this holds where all are numbers.
pub proof fn law_merged_key_is_sorted(lhs: Series, rhs: Series, out: Series)
    requires
        lhs.wf(),
        rhs.wf(),
        same_type(lhs, rhs),
        key_sorted(lhs.data),
        key_sorted(rhs.data),
        has_no_nan(lhs.data),
        has_no_nan(rhs.data),
        key_merge_order(lhs.data, rhs.data) is Some,
        is_column_merge(out, seq![lhs, rhs], key_merge_order(lhs.data, rhs.data)->0),
    ensures
        key_sorted(out.data),
        has_no_nan(out.data),
{
    if !(lhs.data is Null) {
        let ss = seq![lhs, rhs];
        let order = key_merge_order(lhs.data, rhs.data)->0;
        let a = row_keys(lhs.data);
        let b = row_keys(rhs.data);
        let textual = is_textual(lhs.data);
        lemma_key_order_by_keys(lhs, rhs);
        lemma_key_order_uses_up(lhs.data, rhs.data);
        lemma_own_type(lhs);
        assert(row_counts(ss) =~= seq![lhs.spec_len(), rhs.spec_len()]);
        lemma_merged_keys(out.data, ss, order);
        assert(keys_at(ss) =~= seq![a, b]);
        lemma_key_rank(textual);
        lemma_one_kind(lhs.data);
        lemma_one_kind(rhs.data);
        lemma_woven_sorted(a, b, key_rank(), of_kind(textual));
        let keys = row_keys(out.data);
        assert forall|i: int| 0 <= i < keys.len() implies !((#[trigger] keys[i]) is NoNumber) by {
            assert(of_kind(textual)(keys[i]));
        }
    }
}

/// Left is preferred: where the left key column is sorted, a row of the right one goes before a row
/// of it only where the key of the left row is not at or before its own. This holds of floating
/// point keys too, also where some are no numbers.
pub proof fn law_key_merge_prefers_left(lhs: Series, rhs: Series, p: int, q: int)
    requires
        same_type(lhs, rhs),
        !(lhs.data is Null),
        key_sorted(lhs.data),
        key_merge_order(lhs.data, rhs.data) is Some,
        0 <= p < q < key_merge_order(lhs.data, rhs.data)->0.len(),
        key_merge_order(lhs.data, rhs.data)->0[p] == 1,
        key_merge_order(lhs.data, rhs.data)->0[q] == 0,
    ensures
        ({
            let keys = weave(
                keys_at(seq![lhs, rhs]),
                key_merge_order(lhs.data, rhs.data)->0,
            );
            !key_at_most(keys[q], keys[p])
        }),
{
    let a = row_keys(lhs.data);
    let b = row_keys(rhs.data);
    lemma_key_order_by_keys(lhs, rhs);
    lemma_key_rank(false);
    law_merge_is_weave(a, b, key_rank());
    assert(keys_at(seq![lhs, rhs]) =~= seq![a, b]);
    law_merge_prefers_left(a, b, key_rank(), p, q);
}

/// The rows of a numeric key column without nulls are sorted, as frames are when they are merged
/// at once: floating point numbers in their total order, categoricals by their codes.
pub open spec fn number_sorted(d: Data) -> bool {
    match d {
        Data::Int(_) => sorted(IntKeys::values(d)->0, key_order()),
        Data::UInt(_) => sorted(UIntKeys::values(d)->0, key_order()),
        Data::Float(_) => sorted(FloatKeys::values(d)->0, key_order()),
        Data::Logical(_) => sorted(LogicalKeys::values(d)->0, key_order()),
        Data::Categorical(_, _) => sorted(CodeKeys::values(d)->0, key_order()),
        _ => true,
    }
}

/// `key`, a column of physical type `Q`, holds sorted key values of type `P`, each by a cell that
/// is there.
spec fn reads<P: Numeric, Q: Physical>(
    key: Series,
    f: spec_fn(Q::C) -> P::K,
    there: spec_fn(Q::C) -> bool,
) -> bool {
    &&& P::values(key.data) is Some
    &&& sorted(P::values(key.data)->0, key_order::<P::K>())
    &&& P::values(key.data)->0 == (Q::cells(key.data)->0).map_values(f)
    &&& all_among(Q::cells(key.data)->0, there)
}

/// Columns of one physical type `Q`, merged at once by their key values of type `P`: the key values
/// of what is woven are sorted.
proof fn lemma_at_once<P: Numeric, Q: Physical>(
    keys: Seq<Series>,
    order: Seq<u8>,
    out: Data,
    f: spec_fn(Q::C) -> P::K,
    there: spec_fn(Q::C) -> bool,
)
    requires
        0 < keys.len() <= 256,
        is_many_order(key_values_of::<P>(keys), order),
        forall|k: int|
            0 <= k < keys.len() ==> reads::<P, Q>(#[trigger] keys[k], f, there),
        Q::cells(out) == Some(weave(sources::<Q>(keys), order)),
    ensures
        sorted((Q::cells(out)->0).map_values(f), key_order::<P::K>()),
        all_among(Q::cells(out)->0, there),
        (Q::cells(out)->0).map_values(f) == weave(key_values_of::<P>(keys), order),
{
    let cells = sources::<Q>(keys);
    let values = key_values_of::<P>(keys);
    P::lemma_lawful();
    assert forall|k: int| 0 <= k < keys.len() implies {
        &&& (#[trigger] values[k]) == cells[k].map_values(f)
        &&& sorted(values[k], key_order::<P::K>())
    } by {
        assert(reads::<P, Q>(keys[k], f, there));
    }
    assert forall|k: int| 0 <= k < keys.len() implies #[trigger] lens(values)[k] == lens(
        cells,
    )[k] by {
        assert(values[k] == cells[k].map_values(f));
    }
    assert(lens(values) =~= lens(cells));
    lemma_weave_map(cells, values, f, order);
    law_many_merge_is_sorted(values, order);
    let o = Q::cells(out)->0;
    assert forall|p: int| 0 <= p < o.len() implies there(#[trigger] o[p]) by {
        let x = order[p];
        assert(x < lens(cells).len());
        lemma_occurrences_step(order, p, x);
        assert(occurrences(order, x) == lens(cells)[x as int]);
        assert(reads::<P, Q>(keys[x as int], f, there));
        assert(all_among(cells[x as int], there));
    }
}

/// Merging frames at once keeps the key sorted: where the key columns are, so is the merged one,
/// and it has no nulls either.
pub proof fn law_key_merged_at_once_is_sorted(keys: Seq<Series>, order: Seq<u8>, out: Series)
    requires
        0 < keys.len() <= 256,
        by_number(keys),
        number_order(keys, order),
        is_column_merge(out, keys, order),
        forall|k: int| 0 <= k < keys.len() ==> number_sorted((#[trigger] keys[k]).data),
    ensures
        by_number(seq![out]),
        number_sorted(out.data),
{
    let one = seq![out];
    match keys[0].data {
        Data::Int(_) => {
            let f = |x: Option<i128>| x->0;
            let there = |x: Option<i128>| x is Some;
            assert forall|k: int| 0 <= k < keys.len() implies reads::<IntKeys, Ints>(
                #[trigger] keys[k],
                f,
                there,
            ) by {
                assert(number_sorted(keys[k].data));
                lemma_ints_there(keys[k].data);
            }
            lemma_at_once::<IntKeys, Ints>(keys, order, out.data, f, there);
            lemma_there_ints(out.data);
        },
        Data::UInt(_) => {
            let f = |x: Option<u128>| x->0;
            let there = |x: Option<u128>| x is Some;
            assert forall|k: int| 0 <= k < keys.len() implies reads::<UIntKeys, UInts>(
                #[trigger] keys[k],
                f,
                there,
            ) by {
                assert(number_sorted(keys[k].data));
                lemma_uints_there(keys[k].data);
            }
            lemma_at_once::<UIntKeys, UInts>(keys, order, out.data, f, there);
            lemma_there_uints(out.data);
        },
        Data::Float(_) => {
            let f = |x: Option<Float64>| x->0.rank() as i128;
            let there = |x: Option<Float64>| x is Some;
            assert forall|k: int| 0 <= k < keys.len() implies reads::<FloatKeys, Floats>(
                #[trigger] keys[k],
                f,
                there,
            ) by {
                assert(number_sorted(keys[k].data));
                assert(FloatKeys::values(keys[k].data)->0 =~= (Floats::cells(
                    keys[k].data,
                )->0).map_values(f));
            }
            lemma_at_once::<FloatKeys, Floats>(keys, order, out.data, f, there);
            let o = out.data->Float_0@;
            assert forall|i: int| 0 <= i < o.len() implies (#[trigger] o[i]) is Some by {
                assert(there(o[i]));
            }
            assert(ranks(somes(o)) =~= o.map_values(f));
        },
        Data::Logical(_) => {
            let f = |x: Option<i128>| x->0;
            let there = |x: Option<i128>| x is Some;
            assert forall|k: int| 0 <= k < keys.len() implies reads::<LogicalKeys, Ints>(
                #[trigger] keys[k],
                f,
                there,
            ) by {
                assert(number_sorted(keys[k].data));
                lemma_stored_there(keys[k].data);
            }
            lemma_at_once::<LogicalKeys, Ints>(keys, order, out.data, f, there);
            lemma_there_ints(out.data->Logical_0.data);
        },
        Data::Categorical(_, _) => {
            let f = |x: Option<u128>| x->0;
            let there = |x: Option<u128>| x is Some;
            assert forall|k: int| 0 <= k < keys.len() implies reads::<CodeKeys, UInts>(
                #[trigger] keys[k],
                f,
                there,
            ) by {
                assert(number_sorted(keys[k].data));
                lemma_codes_there(keys[k].data);
            }
            lemma_at_once::<CodeKeys, UInts>(keys, order, out.data, f, there);
            lemma_there_uints(out.data->Categorical_0.data);
        },
        _ => {},
    }
}

/// Key values of integers without nulls are the integers.
proof fn lemma_ints_there(d: Data)
    requires
        IntKeys::values(d) is Some,
    ensures
        IntKeys::values(d)->0 == (Ints::cells(d)->0).map_values(|x: Option<i128>| x->0),
        all_among(Ints::cells(d)->0, |x: Option<i128>| x is Some),
{
    assert(IntKeys::values(d)->0 =~= (Ints::cells(d)->0).map_values(|x: Option<i128>| x->0));
}

/// The same of the integers that store a logical column.
proof fn lemma_stored_there(d: Data)
    requires
        LogicalKeys::values(d) is Some,
    ensures
        LogicalKeys::values(d)->0 == (Ints::cells(d)->0).map_values(|x: Option<i128>| x->0),
        all_among(Ints::cells(d)->0, |x: Option<i128>| x is Some),
{
    lemma_ints_there(d->Logical_0.data);
}

/// The same of the codes of a categorical column.
proof fn lemma_codes_there(d: Data)
    requires
        CodeKeys::values(d) is Some,
    ensures
        CodeKeys::values(d)->0 == (UInts::cells(d)->0).map_values(|x: Option<u128>| x->0),
        all_among(UInts::cells(d)->0, |x: Option<u128>| x is Some),
{
    lemma_uints_there(d->Categorical_0.data);
}

/// Integers that are all there are key values.
proof fn lemma_there_ints(d: Data)
    requires
        d is Int,
        all_among(Ints::cells(d)->0, |x: Option<i128>| x is Some),
    ensures
        IntKeys::values(d) is Some,
        IntKeys::values(d)->0 == (Ints::cells(d)->0).map_values(|x: Option<i128>| x->0),
{
    let v = Ints::cells(d)->0;
    let there = |x: Option<i128>| x is Some;
    assert forall|i: int| 0 <= i < v.len() implies (#[trigger] v[i]) is Some by {
        assert(there(v[i]));
    }
    lemma_ints_there(d);
}

/// Key values of unsigned integers without nulls are the integers.
proof fn lemma_uints_there(d: Data)
    requires
        UIntKeys::values(d) is Some,
    ensures
        UIntKeys::values(d)->0 == (UInts::cells(d)->0).map_values(|x: Option<u128>| x->0),
        all_among(UInts::cells(d)->0, |x: Option<u128>| x is Some),
{
    assert(UIntKeys::values(d)->0 =~= (UInts::cells(d)->0).map_values(|x: Option<u128>| x->0));
}

/// Unsigned integers that are all there are key values.
proof fn lemma_there_uints(d: Data)
    requires
        d is UInt,
        all_among(UInts::cells(d)->0, |x: Option<u128>| x is Some),
    ensures
        UIntKeys::values(d) is Some,
        UIntKeys::values(d)->0 == (UInts::cells(d)->0).map_values(|x: Option<u128>| x->0),
{
    let v = UInts::cells(d)->0;
    let there = |x: Option<u128>| x is Some;
    assert forall|i: int| 0 <= i < v.len() implies (#[trigger] v[i]) is Some by {
        assert(there(v[i]));
    }
    lemma_uints_there(d);
}

/// Two columns of the type of a third one can be merged with each other.
proof fn lemma_common_type_follows(x: Series, a: Series, b: Series)
    requires
        b.wf(),
        same_type(x, a),
        same_type(x, b),
        follows(a.data, a.data),
    ensures
        follows(a.data, b.data),
    decreases x,
{
    match (x.data, a.data, b.data) {
        (Data::Struct(s), Data::Struct(t), Data::Struct(u)) => {
            assert forall|f: int| 0 <= f < t.fields@.len() implies follows(
                (#[trigger] t.fields@[f]).data,
                u.fields@[f].data,
            ) by {
                assert(same_type(s.fields@[f], t.fields@[f]));
                assert(follows(t.fields@[f].data, t.fields@[f].data));
                lemma_common_type_follows(s.fields@[f], t.fields@[f], u.fields@[f]);
            }
        },
        (Data::Extension(s), Data::Extension(t), Data::Extension(u)) => {
            lemma_common_type_follows(*s, *t, *u);
        },
        _ => {},
    }
}

/// A column has its own type.
pub proof fn lemma_own_type(x: Series)
    ensures
        same_type(x, x),
    decreases x,
{
    match x.data {
        Data::Struct(s) => {
            assert forall|f: int| 0 <= f < s.fields@.len() implies (
            #[trigger] s.fields@[f]).name@ == s.fields@[f].name@ && same_type(
                s.fields@[f],
                s.fields@[f],
            ) by {
                lemma_own_type(s.fields@[f]);
            }
        },
        Data::Extension(s) => {
            lemma_own_type(*s);
        },
        Data::Logical(s) => {
            lemma_own_type(*s);
        },
        Data::Categorical(s, _) => {
            lemma_own_type(*s);
        },
        _ => {},
    }
}

/// Every frame that is kept is one of the frames.
pub proof fn lemma_kept_member(frames: Seq<FrameView>, j: int) -> (i: int)
    requires
        0 <= j < kept(frames).len(),
    ensures
        0 <= i < frames.len(),
        frames[i] == kept(frames)[j],
    decreases frames.len(),
{
    let rest = frames.drop_last();
    if j < kept(rest).len() {
        lemma_kept_member(rest, j)
    } else {
        frames.len() - 1
    }
}

/// No frame differs from the first one.
proof fn lemma_no_schema_error(frames: Seq<FrameView>, n: nat, i: int)
    requires
        schema_error(frames, n) is None,
        1 <= i < n,
    ensures
        schema_mismatch(frames[0], frames[i]) is None,
    decreases n,
{
    if i < n - 1 {
        lemma_no_schema_error(frames, (n - 1) as nat, i);
    }
}

/// The columns of `frame` have the types of those of `first` and can be merged into themselves, and
/// its key is not a column of nulls.
spec fn checked(first: FrameView, frame: FrameView, key: Seq<char>) -> bool {
    &&& frame.columns.len() == first.columns.len()
    &&& forall|c: int|
        0 <= c < first.columns.len() ==> {
            &&& same_type(first.columns[c], #[trigger] frame.columns[c])
            &&& follows(frame.columns[c].data, frame.columns[c].data)
        }
    &&& has_column(frame, key) ==> !(column_of(frame, key).data is Null)
}

/// Frames with columns of the same types can be merged one after the other.
proof fn lemma_checked_foldable(
    first: FrameView,
    out: FrameView,
    rest: Seq<FrameView>,
    key: Seq<char>,
    check_schema: bool,
)
    requires
        checked(first, out, key),
        forall|i: int|
            0 <= i < rest.len() ==> (#[trigger] rest[i]).wf() && checked(first, rest[i], key),
        out.height + total(heights(rest)) <= usize::MAX,
    ensures
        foldable(out, rest, key, check_schema),
    decreases rest.len(),
{
    if rest.len() > 0 {
        let r = rest[0];
        let tail = rest.drop_first();
        assert(r.wf() && checked(first, r, key));
        lemma_total_first(heights(rest));
        assert(heights(rest).drop_first() =~= heights(tail));
        assert forall|i: int| 0 <= i < tail.len() implies (#[trigger] tail[i]).wf() && checked(
            first,
            tail[i],
            key,
        ) by {
            assert(tail[i] == rest[i + 1]);
        }
        lemma_checked_foldable(first, out, tail, key, check_schema);
        lemma_checked_foldable(first, r, tail, key, check_schema);
        assert forall|c: int| 0 <= c < common_width(out, r) implies follows(
            (#[trigger] out.columns[c]).data,
            r.columns[c].data,
        ) && same_width(out.columns[c], r.columns[c]) by {
            assert(same_type(first.columns[c], out.columns[c]));
            assert(same_type(first.columns[c], r.columns[c]));
            assert(r.columns[c].wf());
            lemma_common_type_follows(first.columns[c], out.columns[c], r.columns[c]);
            lemma_type_width(first.columns[c], out.columns[c], r.columns[c]);
        }
        let height = out.height + r.height;
        let next = narrowed(out, common_width(out, r), height);
        assert(next.columns =~= out.columns);
        lemma_same_columns(out, next, key);
        lemma_checked_foldable(first, next, tail, key, check_schema);
    }
}

/// The key column goes by the columns alone.
proof fn lemma_same_columns(a: FrameView, b: FrameView, key: Seq<char>)
    requires
        a.columns == b.columns,
    ensures
        has_column(a, key) == has_column(b, key),
        has_column(a, key) ==> column_of(a, key) == column_of(b, key),
{
    if has_column(a, key) {
        let c = choose|c: int| #[trigger] is_column(a, key, c);
        assert(is_column(b, key, c));
        lemma_column_of(a, key, c);
        lemma_column_of(b, key, c);
    }
    if has_column(b, key) {
        let c = choose|c: int| #[trigger] is_column(b, key, c);
        assert(is_column(a, key, c));
    }
}

/// A schema check is enough: frames of one width that pass it can always be merged by a key that
/// is not a column of nulls, at once or one after the other, unless a column holds a struct without
/// fields or there are more rows or frames than can be counted.
pub proof fn law_checked_frames_can_be_merged(frames: Seq<FrameView>, key: Seq<char>)
    requires
        frames.len() > 0,
        schema_error(frames, frames.len()) is None,
        total(heights(frames)) <= usize::MAX,
        forall|i: int|
            0 <= i < frames.len() ==> {
                &&& (#[trigger] frames[i]).wf()
                &&& frames[i].columns.len() == frames[0].columns.len()
                &&& has_column(frames[i], key) ==> !(column_of(frames[i], key).data is Null)
            },
        forall|i: int, c: int|
            0 <= i < frames.len() && 0 <= c < frames[i].columns.len() ==> follows(
                (#[trigger] frames[i].columns[c]).data,
                frames[i].columns[c].data,
            ),
    ensures
        foldable(frames[0], frames.drop_first(), key, true),
        foldable(frames[0], frames.drop_first(), key, false),
        kept(frames).len() <= 256 ==> admitted(frames, key, true),
        kept(frames).len() <= 256 ==> admitted(frames, key, false),
{
    let first = frames[0];
    let rest = frames.drop_first();
    let k = kept(frames);
    assert forall|i: int| 0 <= i < frames.len() implies checked(
        first,
        #[trigger] frames[i],
        key,
    ) by {
        assert(frames[i].wf());
        assert forall|c: int| 0 <= c < first.columns.len() implies {
            &&& same_type(first.columns[c], #[trigger] frames[i].columns[c])
            &&& follows(frames[i].columns[c].data, frames[i].columns[c].data)
        } by {
            assert(follows(frames[i].columns[c].data, frames[i].columns[c].data));
            if i == 0 {
                lemma_own_type(first.columns[c]);
            } else {
                lemma_no_schema_error(frames, frames.len(), i);
                lemma_no_mismatch(first, frames[i], c);
            }
        }
    }
    assert forall|i: int| 0 <= i < rest.len() implies (#[trigger] rest[i]).wf() && checked(
        first,
        rest[i],
        key,
    ) by {
        assert(rest[i] == frames[i + 1]);
        assert(checked(first, frames[i + 1], key));
    }
    lemma_total_first(heights(frames));
    assert(heights(frames).drop_first() =~= heights(rest));
    assert(checked(first, frames[0], key));
    lemma_checked_foldable(first, first, rest, key, true);
    lemma_checked_foldable(first, first, rest, key, false);
    lemma_kept_total(frames);
    assert forall|j: int| 0 < j < k.len() implies covers(k[0], #[trigger] k[j]) by {
        let a = lemma_kept_member(frames, 0);
        let b = lemma_kept_member(frames, j);
        assert(checked(first, frames[a], key) && checked(first, frames[b], key));
        assert forall|c: int| 0 <= c < k[0].columns.len() implies follows(
            (#[trigger] k[0].columns[c]).data,
            k[j].columns[c].data,
        ) && same_width(k[0].columns[c], k[j].columns[c]) by {
            assert(same_type(first.columns[c], frames[a].columns[c]));
            assert(same_type(first.columns[c], frames[b].columns[c]));
            assert(frames[b].columns[c].wf());
            lemma_common_type_follows(
                first.columns[c],
                frames[a].columns[c],
                frames[b].columns[c],
            );
            lemma_type_width(first.columns[c], frames[a].columns[c], frames[b].columns[c]);
        }
    }
}

/// Every column has as many rows as the frame and is stored as it should be.
spec fn level(frame: FrameView) -> bool {
    forall|c: int|
        0 <= c < frame.columns.len() ==> (#[trigger] frame.columns[c]).spec_len() == frame.height
            && stored_right(frame.columns[c].data)
}

/// A merged struct column has the fields of the first column, each merged of the fields in its
/// place, and a row is null exactly where the row it comes from is.
pub proof fn law_merged_struct(out: Series, ss: Seq<Series>, order: Seq<u8>)
    requires
        ss.len() > 0,
        is_merge(out, ss, order),
        uses_up(row_counts(ss), order),
        ss[0].data is Struct,
        forall|k: int| 0 <= k < ss.len() ==> (#[trigger] ss[k]).wf(),
        forall|k: int| 0 <= k < ss.len() ==> (#[trigger] ss[k]).data is Struct,
    ensures
        out.data is Struct,
        out.data->Struct_0.fields@.len() == ss[0].data->Struct_0.fields@.len(),
        forall|f: int|
            0 <= f < out.data->Struct_0.fields@.len() ==> {
                let field = #[trigger] out.data->Struct_0.fields@[f];
                &&& field.name == ss[0].data->Struct_0.fields@[f].name
                &&& is_column_merge(field, fields_at(ss, f), order)
            },
        valid_rows(out.data) == weave(
            Seq::new(ss.len(), |k: int| valid_rows(ss[k].data)),
            order,
        ),
{
    let s = out.data->Struct_0;
    assert forall|f: int| 0 <= f < s.fields@.len() implies {
        let field = #[trigger] out.data->Struct_0.fields@[f];
        &&& field.name == ss[0].data->Struct_0.fields@[f].name
        &&& is_column_merge(field, fields_at(ss, f), order)
    } by {
        assert(named(s.fields@[f], fields_at(ss, f)));
    }
    lemma_valid_rows_woven(out.data, ss, order);
}

/// The rows of a merged struct column are null where the rows they come from are.
pub proof fn lemma_valid_rows_woven(out: Data, ss: Seq<Series>, order: Seq<u8>)
    requires
        ss.len() > 0,
        merge_of(out, ss, order),
        uses_up(row_counts(ss), order),
        ss[0].data is Struct,
        forall|k: int| 0 <= k < ss.len() ==> (#[trigger] ss[k]).wf(),
        forall|k: int| 0 <= k < ss.len() ==> (#[trigger] ss[k]).data is Struct,
    ensures
        valid_rows(out) == weave(Seq::new(ss.len(), |k: int| valid_rows(ss[k].data)), order),
{
    let rows = Seq::new(ss.len(), |k: int| valid_rows(ss[k].data));
    if !(out->Struct_0.validity is Some) {
        assert forall|p: int| 0 <= p < order.len() implies weave(rows, order)[p] by {
            let x = order[p] as int;
            assert(order[p] < row_counts(ss).len());
            lemma_occurrences_step(order, p, order[p]);
            assert(occurrences(order, order[p]) == row_counts(ss)[x]);
            assert(ss[x].wf() && ss[x].data is Struct);
            let i = occurrences(order.take(p), order[p]) as int;
            assert(!has_null_rows(ss[x].data));
            assert(valid_rows(ss[x].data)[i]);
        }
        assert(valid_rows(out) =~= weave(rows, order));
    }
}

/// One step of merging two frames adds up their rows.
proof fn lemma_two_way_rows(
    left: FrameView,
    right: FrameView,
    key: Seq<char>,
    check_schema: bool,
    df: DataFrame,
)
    requires
        level(left),
        level(right),
        has_column(left, key),
        has_column(right, key),
        two_way(
            left,
            right,
            column_of(left, key),
            column_of(right, key),
            check_schema,
            Ok::<DataFrame, MergeError>(df),
        ),
    ensures
        level(df@),
        df@.height == left.height + right.height,
{
    let l = column_of(left, key);
    let r = column_of(right, key);
    let cl = choose|c: int| #[trigger] is_column(left, key, c);
    let cr = choose|c: int| #[trigger] is_column(right, key, c);
    lemma_column_of(left, key, cl);
    lemma_column_of(right, key, cr);
    if l.spec_len() > 0 && r.spec_len() > 0 {
        lemma_total_two(left, right);
        let order = key_merge_order(l.data, r.data)->0;
        if !(l.data is Null) {
            lemma_key_order_uses_up(l.data, r.data);
        }
        assert forall|c: int| 0 <= c < df@.columns.len() implies (
        #[trigger] df@.columns[c]).spec_len() == df@.height && stored_right(
            df@.columns[c].data,
        ) by {
            assert(stored_right(left.columns[c].data));
            assert(is_column_merge(df@.columns[c], columns_at(seq![left, right], c), order));
            assert(columns_at(seq![left, right], c)[0] == left.columns[c]);
            law_merged_column_len(df@.columns[c].data, columns_at(seq![left, right], c), order);
        }
    }
}

/// Where merging one frame after the other succeeds, so does its first step.
pub proof fn lemma_next_step(
    out: FrameView,
    rest: Seq<FrameView>,
    key: Seq<char>,
    check_schema: bool,
    df: DataFrame,
) -> (next: DataFrame)
    requires
        rest.len() > 0,
        pairwise(out, rest, key, check_schema, Ok::<DataFrame, MergeError>(df)),
    ensures
        has_column(out, key),
        has_column(rest[0], key),
        two_way(
            out,
            rest[0],
            column_of(out, key),
            column_of(rest[0], key),
            check_schema,
            Ok::<DataFrame, MergeError>(next),
        ),
        pairwise(
            next@,
            rest.drop_first(),
            key,
            check_schema,
            Ok::<DataFrame, MergeError>(df),
        ),
{
    let step = choose|step: Result<DataFrame, MergeError>|
        {
            &&& #[trigger] two_way(
                out,
                rest[0],
                column_of(out, key),
                column_of(rest[0], key),
                check_schema,
                step,
            )
            &&& match step {
                Ok(d) => pairwise(
                    d@,
                    rest.drop_first(),
                    key,
                    check_schema,
                    Ok::<DataFrame, MergeError>(df),
                ),
                Err(e) => Ok::<DataFrame, MergeError>(df) == Err::<DataFrame, MergeError>(e),
            }
        };
    step->Ok_0
}

/// Merging one frame after the other adds up their rows.
proof fn lemma_pairwise_rows(
    out: FrameView,
    rest: Seq<FrameView>,
    key: Seq<char>,
    check_schema: bool,
    df: DataFrame,
)
    requires
        level(out),
        forall|i: int| 0 <= i < rest.len() ==> level(#[trigger] rest[i]),
        pairwise(out, rest, key, check_schema, Ok::<DataFrame, MergeError>(df)),
    ensures
        df@.height == out.height + total(heights(rest)),
    decreases rest.len(),
{
    if rest.len() > 0 {
        let next = lemma_next_step(out, rest, key, check_schema, df);
        assert(level(rest[0]));
        lemma_two_way_rows(out, rest[0], key, check_schema, next);
        lemma_pairwise_rows(next@, rest.drop_first(), key, check_schema, df);
        lemma_total_first(heights(rest));
        assert(heights(rest).drop_first() =~= heights(rest.drop_first()));
    } else {
        assert(heights(rest) =~= Seq::<nat>::empty());
    }
}

/// The first number counts as much as any other.
proof fn lemma_total_first(sizes: Seq<nat>)
    requires
        sizes.len() > 0,
    ensures
        total(sizes) == sizes[0] + total(sizes.drop_first()),
    decreases sizes.len(),
{
    if sizes.len() == 1 {
        assert(sizes.drop_last() =~= Seq::<nat>::empty());
        assert(sizes.drop_first() =~= Seq::<nat>::empty());
        reveal_with_fuel(total, 2);
    } else {
        lemma_total_first(sizes.drop_last());
        assert(sizes.drop_last().drop_first() =~= sizes.drop_first().drop_last());
    }
}

/// However many frames are merged, and in whichever way, the merge has the rows of all of them.
pub proof fn law_merge_keeps_row_count(
    frames: Seq<FrameView>,
    key: Seq<char>,
    check_schema: bool,
    df: DataFrame,
)
    requires
        forall|i: int| 0 <= i < frames.len() ==> (#[trigger] frames[i]).wf(),
        many_way(frames, key, check_schema, Ok::<DataFrame, MergeError>(df)),
    ensures
        df@.height == total(heights(frames)),
{
    let k = kept(frames);
    lemma_kept_total(frames);
    if k.len() == 0 {
        assert(heights(k) =~= Seq::<nat>::empty());
        if frames[0].height > 0 {
            lemma_total_first(heights(frames));
        }
    } else if k.len() == 1 {
        assert(heights(k).drop_last() =~= Seq::<nat>::empty());
        reveal_with_fuel(total, 2);
    } else if !by_number(keys_of(k, key)) {
        assert forall|i: int| 0 <= i < frames.len() implies level(#[trigger] frames[i]) by {
            assert(frames[i].wf());
        }
        lemma_pairwise_rows(frames[0], frames.drop_first(), key, check_schema, df);
        lemma_total_first(heights(frames));
        assert(heights(frames).drop_first() =~= heights(frames.drop_first()));
    }
}

/// A merge of two frames that both have rows has the rows of both, and their common columns, named
/// and typed as those of the left one, whether or not the schemas were checked.
pub proof fn law_two_way_merge_is_like_left(
    left: FrameView,
    right: FrameView,
    left_s: Series,
    right_s: Series,
    check_schema: bool,
    df: DataFrame,
)
    requires
        left.wf(),
        left_s.spec_len() > 0,
        right_s.spec_len() > 0,
        two_way(left, right, left_s, right_s, check_schema, Ok::<DataFrame, MergeError>(df)),
    ensures
        df@.height == left.height + right.height,
        df@.columns.len() == common_width(left, right),
        forall|c: int|
            0 <= c < df@.columns.len() ==> {
                &&& (#[trigger] df@.columns[c]).name == left.columns[c].name
                &&& df@.columns[c].dtype == left.columns[c].dtype
                &&& same_type(df@.columns[c], left.columns[c])
            },
{
    let frames = seq![left, right];
    let order = key_merge_order(left_s.data, right_s.data)->0;
    lemma_total_two(left, right);
    assert forall|c: int| 0 <= c < df@.columns.len() implies {
        &&& (#[trigger] df@.columns[c]).name == left.columns[c].name
        &&& df@.columns[c].dtype == left.columns[c].dtype
        &&& same_type(df@.columns[c], left.columns[c])
    } by {
        let out = df@.columns[c];
        let l = left.columns[c];
        assert(is_column_merge(out, columns_at(frames, c), order));
        assert(columns_at(frames, c)[0] == l);
        assert(l.wf());
        lemma_merge_shape(out, columns_at(frames, c), order);
        lemma_own_type(l);
        lemma_shape_types(out, l, l);
    }
}

/// A merge of two frames keeps them sorted by key: where both frames have the key in place `c` and
/// are sorted by it, so is the merged one.
pub proof fn law_two_way_merge_is_sorted(
    left: FrameView,
    right: FrameView,
    key: Seq<char>,
    c: int,
    check_schema: bool,
    df: DataFrame,
)
    requires
        left.wf(),
        right.wf(),
        is_column(left, key, c),
        is_column(right, key, c),
        key_sorted(left.columns[c].data),
        key_sorted(right.columns[c].data),
        has_no_nan(left.columns[c].data),
        has_no_nan(right.columns[c].data),
        two_way(
            left,
            right,
            left.columns[c],
            right.columns[c],
            check_schema,
            Ok::<DataFrame, MergeError>(df),
        ),
    ensures
        is_column(df@, key, c),
        key_sorted(df@.columns[c].data),
        has_no_nan(df@.columns[c].data),
{
    let l = left.columns[c];
    let r = right.columns[c];
    if l.spec_len() > 0 && r.spec_len() > 0 {
        let frames = seq![left, right];
        let order = key_merge_order(l.data, r.data)->0;
        assert forall|d: int| 0 <= d <= c implies (#[trigger] df@.columns[d]).name
            == left.columns[d].name by {
            assert(is_column_merge(df@.columns[d], columns_at(frames, d), order));
            assert(columns_at(frames, d)[0] == left.columns[d]);
        }
        assert forall|d: int| 0 <= d < c implies (#[trigger] df@.columns[d]).name@ != key by {
            assert(left.columns[d].name@ != key);
        }
        assert(is_column_merge(df@.columns[c], columns_at(frames, c), order));
        assert(columns_at(frames, c) =~= seq![l, r]);
        law_merged_key_is_sorted(l, r, df@.columns[c]);
    }
}

/// Frames that pass the schema check and have a key column all have it in the same place.
pub proof fn law_checked_frames_agree_on_key(frames: Seq<FrameView>, key: Seq<char>, i: int)
    requires
        schema_error(frames, frames.len()) is None,
        0 <= i < frames.len(),
        has_column(frames[0], key),
        has_column(frames[i], key),
    ensures
        forall|c: int| #[trigger]
            is_column(frames[0], key, c) <==> is_column(frames[i], key, c),
{
    if i > 0 {
        let c = choose|c: int| #[trigger] is_column(frames[0], key, c);
        let d = choose|d: int| #[trigger] is_column(frames[i], key, d);
        lemma_no_schema_error(frames, frames.len(), i);
        if c < common_width(frames[0], frames[i]) {
            lemma_no_mismatch(frames[0], frames[i], c);
        }
        if d < common_width(frames[0], frames[i]) {
            lemma_no_mismatch(frames[0], frames[i], d);
        }
        assert(c == d);
        assert forall|e: int| #[trigger]
            is_column(frames[0], key, e) <==> is_column(frames[i], key, e) by {
            if is_column(frames[0], key, e) {
                assert(e == c);
            }
            if is_column(frames[i], key, e) {
                assert(e == d);
            }
        }
    }
}

} // verus!
