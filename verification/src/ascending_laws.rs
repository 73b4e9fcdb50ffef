//! Merging frames whose key columns ascend gives frames whose key columns ascend, said of the
//! values in the columns.
use crate::cells::{lex_le, Bytes, Float64};
use crate::column_laws::law_merged_cells_are_read_in_turn;
use crate::frame::{is_column, lemma_column_of, Data, DataFrame, FrameView, MergeError};
use crate::frame_laws::{law_two_way_merge_is_sorted, lemma_kept_member};
use crate::gather::{is_column_merge, sources, Floats, Ints, Strings};
use crate::heap::key_order;
use crate::indicator::key_merge_order;
use crate::key_laws::{
    law_frames_at_once_give_the_least_key, law_key_values_are_the_values, law_sorted_keys_ascend,
};
use crate::keys::{key_at_most, key_sorted, row_keys};
use crate::merge::{merged, order_of};
use crate::merge_frames::{columns_at, is_frame_merge, two_way};
use crate::merge_laws::{law_merge_is_weave, law_merge_keeps_elements};
use crate::merge_many_frames::{
    admitted, kept, keys_of, many_way, number_order, FloatKeys, IntKeys, Numeric,
};
use crate::pairwise_laws::{at_once, law_many_way_merge_is_sorted, sorted_for};
use crate::value_laws::lemma_common_prefix;
use vstd::prelude::*;

verus! {

/// Merging two frames by integers that ascend, nulls first, gives integers that ascend, nulls
/// first: those of both frames.
pub proof fn law_merged_integers_ascend(
    left: FrameView,
    right: FrameView,
    key: Seq<char>,
    c: int,
    check_schema: bool,
    df: DataFrame,
    a: Vec<Option<i128>>,
    b: Vec<Option<i128>>,
)
    requires
        left.wf(),
        right.wf(),
        is_column(left, key, c),
        is_column(right, key, c),
        left.columns[c].data == Data::Int(a),
        right.columns[c].data == Data::Int(b),
        forall|i: int, j: int|
            0 <= i < j < a@.len() ==> (#[trigger] a@[i]) is None || ((#[trigger] a@[j]) is Some
                && a@[i]->0 <= a@[j]->0),
        forall|i: int, j: int|
            0 <= i < j < b@.len() ==> (#[trigger] b@[i]) is None || ((#[trigger] b@[j]) is Some
                && b@[i]->0 <= b@[j]->0),
        two_way(
            left,
            right,
            left.columns[c],
            right.columns[c],
            check_schema,
            Ok::<DataFrame, MergeError>(df),
        ),
    ensures
        df@.columns[c].data matches Data::Int(v) && {
            &&& forall|i: int, j: int|
                0 <= i < j < v@.len() ==> (#[trigger] v@[i]) is None || ((#[trigger] v@[j]) is Some
                    && v@[i]->0 <= v@[j]->0)
            &&& v@.to_multiset() == a@.to_multiset().add(b@.to_multiset())
        },
{
    broadcast use vstd::seq_lib::group_to_multiset_ensures;

    let l = left.columns[c].data;
    let r = right.columns[c].data;
    assert forall|i: int, j: int| 0 <= i < j < row_keys(l).len() implies key_at_most(
        #[trigger] row_keys(l)[i],
        #[trigger] row_keys(l)[j],
    ) by {
        assert(a@[i] is None || (a@[j] is Some && a@[i]->0 <= a@[j]->0));
    }
    assert forall|i: int, j: int| 0 <= i < j < row_keys(r).len() implies key_at_most(
        #[trigger] row_keys(r)[i],
        #[trigger] row_keys(r)[j],
    ) by {
        assert(b@[i] is None || (b@[j] is Some && b@[i]->0 <= b@[j]->0));
    }
    law_sorted_keys_ascend(l);
    law_sorted_keys_ascend(r);
    law_two_way_merge_is_sorted(left, right, key, c, check_schema, df);
    let out = df@.columns[c].data;
    law_sorted_keys_ascend(out);
    assert(a@.len() == 0 ==> a@.to_multiset() =~= vstd::multiset::Multiset::empty());
    assert(b@.len() == 0 ==> b@.to_multiset() =~= vstd::multiset::Multiset::empty());
    if a@.len() > 0 && b@.len() > 0 {
        let frames = seq![left, right];
        let le = order_of::<Option<i128>>();
        assert(is_column_merge(
            df@.columns[c],
            columns_at(frames, c),
            key_merge_order(l, r)->0,
        ));
        assert(sources::<Ints>(columns_at(frames, c)) =~= seq![a@, b@]);
        law_merge_is_weave(a@, b@, le);
        law_merge_keeps_elements(a@, b@, le);
        assert(out->Int_0@ == merged(a@, b@, le));
    } else {
        assert(out->Int_0@.to_multiset() =~= a@.to_multiset().add(b@.to_multiset()));
    }
    let v = out->Int_0@;
    assert forall|i: int, j: int| 0 <= i < j < v.len() implies (#[trigger] v[i]) is None || ((
    #[trigger] v[j]) is Some && v[i]->0 <= v[j]->0) by {
        assert(key_at_most(row_keys(out)[i], row_keys(out)[j]));
    }
}

/// Merging two frames by floating point numbers that ascend gives floating point numbers that
/// ascend, those of both frames. Of numbers that are not negative the one with the smaller bits is
/// the smaller one, of negative ones the one with the larger bits.
pub proof fn law_merged_floats_ascend(
    left: FrameView,
    right: FrameView,
    key: Seq<char>,
    c: int,
    check_schema: bool,
    df: DataFrame,
    a: Vec<Option<Float64>>,
    b: Vec<Option<Float64>>,
)
    requires
        left.wf(),
        right.wf(),
        is_column(left, key, c),
        is_column(right, key, c),
        left.columns[c].data == Data::Float(a),
        right.columns[c].data == Data::Float(b),
        forall|i: int|
            0 <= i < a@.len() ==> ((#[trigger] a@[i]) matches Some(x) && x.bits
                <= 0x7ff0_0000_0000_0000),
        forall|i: int|
            0 <= i < b@.len() ==> ((#[trigger] b@[i]) matches Some(x) && x.bits
                <= 0x7ff0_0000_0000_0000),
        forall|i: int, j: int|
            0 <= i < j < a@.len() ==> (#[trigger] a@[i])->0.bits <= (#[trigger] a@[j])->0.bits,
        forall|i: int, j: int|
            0 <= i < j < b@.len() ==> (#[trigger] b@[i])->0.bits <= (#[trigger] b@[j])->0.bits,
        two_way(
            left,
            right,
            left.columns[c],
            right.columns[c],
            check_schema,
            Ok::<DataFrame, MergeError>(df),
        ),
    ensures
        df@.columns[c].data matches Data::Float(v) && {
            &&& forall|i: int, j: int|
                0 <= i < j < v@.len() ==> (#[trigger] v@[i])->0.bits <= (#[trigger] v@[j])->0.bits
            &&& v@.to_multiset() == a@.to_multiset().add(b@.to_multiset())
        },
{
    broadcast use vstd::seq_lib::group_to_multiset_ensures;

    let l = left.columns[c].data;
    let r = right.columns[c].data;
    assert forall|i: int, j: int| 0 <= i < j < row_keys(l).len() implies key_at_most(
        #[trigger] row_keys(l)[i],
        #[trigger] row_keys(l)[j],
    ) by {
        assert(a@[i]->0.bits <= a@[j]->0.bits);
        assert(a@[i] is Some && a@[j] is Some);
    }
    assert forall|i: int, j: int| 0 <= i < j < row_keys(r).len() implies key_at_most(
        #[trigger] row_keys(r)[i],
        #[trigger] row_keys(r)[j],
    ) by {
        assert(b@[i]->0.bits <= b@[j]->0.bits);
        assert(b@[i] is Some && b@[j] is Some);
    }
    assert forall|i: int| 0 <= i < row_keys(l).len() implies !((#[trigger] row_keys(l)[i])
        is NoNumber) by {
        assert(a@[i] is Some);
    }
    assert forall|i: int| 0 <= i < row_keys(r).len() implies !((#[trigger] row_keys(r)[i])
        is NoNumber) by {
        assert(b@[i] is Some);
    }
    law_sorted_keys_ascend(l);
    law_sorted_keys_ascend(r);
    law_two_way_merge_is_sorted(left, right, key, c, check_schema, df);
    let out = df@.columns[c].data;
    law_sorted_keys_ascend(out);
    assert(a@.len() == 0 ==> a@.to_multiset() =~= vstd::multiset::Multiset::empty());
    assert(b@.len() == 0 ==> b@.to_multiset() =~= vstd::multiset::Multiset::empty());
    if a@.len() > 0 && b@.len() > 0 {
        let frames = seq![left, right];
        let le = order_of::<Option<Float64>>();
        assert(is_column_merge(
            df@.columns[c],
            columns_at(frames, c),
            key_merge_order(l, r)->0,
        ));
        assert(sources::<Floats>(columns_at(frames, c)) =~= seq![a@, b@]);
        law_merge_is_weave(a@, b@, le);
        law_merge_keeps_elements(a@, b@, le);
        assert(out->Float_0@ == merged(a@, b@, le));
    } else {
        assert(out->Float_0@.to_multiset() =~= a@.to_multiset().add(b@.to_multiset()));
    }
    let v = out->Float_0@;
    assert forall|i: int| 0 <= i < v.len() implies ((#[trigger] v[i]) matches Some(x) && x.bits
        <= 0x7ff0_0000_0000_0000) by {
        assert(v.contains(v[i]));
        assert(v.to_multiset().count(v[i]) > 0);
        assert(a@.to_multiset().count(v[i]) > 0 || b@.to_multiset().count(v[i]) > 0);
        if a@.contains(v[i]) {
            let k = choose|k: int| 0 <= k < a@.len() && a@[k] == v[i];
            assert(a@[k] is Some);
        } else {
            assert(b@.contains(v[i]));
            let k = choose|k: int| 0 <= k < b@.len() && b@[k] == v[i];
            assert(b@[k] is Some);
        }
    }
    assert forall|i: int, j: int| 0 <= i < j < v.len() implies (#[trigger] v[i])->0.bits <= (
    #[trigger] v[j])->0.bits by {
        assert(key_at_most(row_keys(out)[i], row_keys(out)[j]));
        assert(v[i] is Some && v[j] is Some);
    }
}

/// Where one byte string is not at or before another, they part at some place, and there the first
/// has the greater byte or goes on alone.
proof fn lemma_parting(x: Seq<u8>, y: Seq<u8>) -> (n: int)
    requires
        !lex_le(x, y),
    ensures
        0 <= n < x.len(),
        n <= y.len(),
        x.take(n) == y.take(n),
        n == y.len() || y[n] < x[n],
    decreases x.len(),
{
    if y.len() > 0 && x[0] == y[0] {
        let m = lemma_parting(x.drop_first(), y.drop_first());
        assert forall|i: int| 0 <= i < m + 1 implies x[i] == y[i] by {
            if i > 0 {
                assert(x.drop_first().take(m)[i - 1] == y.drop_first().take(m)[i - 1]);
            }
        }
        assert(x.take(m + 1) =~= y.take(m + 1));
        m + 1
    } else {
        assert(x.take(0) =~= y.take(0));
        0
    }
}

/// Text that ascends as in a dictionary, nulls first, is sorted.
proof fn lemma_text_sorted(a: Vec<Option<Bytes>>)
    requires
        forall|i: int, j: int|
            0 <= i < j < a@.len() && (#[trigger] a@[j]) is None ==> (#[trigger] a@[i]) is None,
        forall|i: int, j: int, n: int|
            #![trigger a@[i]->0@.take(n), a@[j]->0@.take(n)]
            0 <= i < j < a@.len() && a@[i] is Some && a@[j] is Some && 0 <= n < a@[i]->0@.len() && n
                <= a@[j]->0@.len() && a@[i]->0@.take(n) == a@[j]->0@.take(n) ==> n
                < a@[j]->0@.len() && a@[i]->0@[n] <= a@[j]->0@[n],
    ensures
        key_sorted(Data::String(a)),
{
    let d = Data::String(a);
    assert forall|i: int, j: int| 0 <= i < j < row_keys(d).len() implies key_at_most(
        #[trigger] row_keys(d)[i],
        #[trigger] row_keys(d)[j],
    ) by {
        assert(a@[j] is None ==> a@[i] is None);
        if a@[i] is Some {
            let x = a@[i]->0@;
            let y = a@[j]->0@;
            if !lex_le(x, y) {
                let n = lemma_parting(x, y);
                assert(a@[i]->0@.take(n) == a@[j]->0@.take(n));
            }
        }
    }
    law_sorted_keys_ascend(d);
}

/// Merging two frames by text that ascends as in a dictionary, nulls first, gives text that ascends
/// so: of two rows that agree on their first `n` bytes, the earlier one never has the greater byte
/// next, nor goes on where the later one ends.
pub proof fn law_merged_text_ascends(
    left: FrameView,
    right: FrameView,
    key: Seq<char>,
    c: int,
    check_schema: bool,
    df: DataFrame,
    a: Vec<Option<Bytes>>,
    b: Vec<Option<Bytes>>,
)
    requires
        left.wf(),
        right.wf(),
        is_column(left, key, c),
        is_column(right, key, c),
        left.columns[c].data == Data::String(a),
        right.columns[c].data == Data::String(b),
        forall|i: int, j: int|
            0 <= i < j < a@.len() && (#[trigger] a@[j]) is None ==> (#[trigger] a@[i]) is None,
        forall|i: int, j: int|
            0 <= i < j < b@.len() && (#[trigger] b@[j]) is None ==> (#[trigger] b@[i]) is None,
        forall|i: int, j: int, n: int|
            #![trigger a@[i]->0@.take(n), a@[j]->0@.take(n)]
            0 <= i < j < a@.len() && a@[i] is Some && a@[j] is Some && 0 <= n < a@[i]->0@.len() && n
                <= a@[j]->0@.len() && a@[i]->0@.take(n) == a@[j]->0@.take(n) ==> n
                < a@[j]->0@.len() && a@[i]->0@[n] <= a@[j]->0@[n],
        forall|i: int, j: int, n: int|
            #![trigger b@[i]->0@.take(n), b@[j]->0@.take(n)]
            0 <= i < j < b@.len() && b@[i] is Some && b@[j] is Some && 0 <= n < b@[i]->0@.len() && n
                <= b@[j]->0@.len() && b@[i]->0@.take(n) == b@[j]->0@.take(n) ==> n
                < b@[j]->0@.len() && b@[i]->0@[n] <= b@[j]->0@[n],
        two_way(
            left,
            right,
            left.columns[c],
            right.columns[c],
            check_schema,
            Ok::<DataFrame, MergeError>(df),
        ),
    ensures
        df@.columns[c].data matches Data::String(v) && {
            &&& forall|i: int, j: int|
                0 <= i < j < v@.len() && (#[trigger] v@[j]) is None ==> (#[trigger] v@[i]) is None
            &&& forall|i: int, j: int, n: int|
                #![trigger v@[i]->0@.take(n), v@[j]->0@.take(n)]
                0 <= i < j < v@.len() && v@[i] is Some && v@[j] is Some && 0 <= n
                    < v@[i]->0@.len() && n <= v@[j]->0@.len() && v@[i]->0@.take(n)
                    == v@[j]->0@.take(n) ==> n < v@[j]->0@.len() && v@[i]->0@[n] <= v@[j]->0@[n]
            &&& v@.to_multiset() == a@.to_multiset().add(b@.to_multiset())
        },
{
    broadcast use vstd::seq_lib::group_to_multiset_ensures;

    let l = left.columns[c].data;
    let r = right.columns[c].data;
    lemma_text_sorted(a);
    lemma_text_sorted(b);
    law_two_way_merge_is_sorted(left, right, key, c, check_schema, df);
    let out = df@.columns[c].data;
    law_sorted_keys_ascend(out);
    assert(a@.len() == 0 ==> a@.to_multiset() =~= vstd::multiset::Multiset::empty());
    assert(b@.len() == 0 ==> b@.to_multiset() =~= vstd::multiset::Multiset::empty());
    if a@.len() > 0 && b@.len() > 0 {
        let frames = seq![left, right];
        let le = order_of::<Option<Bytes>>();
        assert(is_column_merge(
            df@.columns[c],
            columns_at(frames, c),
            key_merge_order(l, r)->0,
        ));
        assert(sources::<Strings>(columns_at(frames, c)) =~= seq![a@, b@]);
        law_merge_is_weave(a@, b@, le);
        law_merge_keeps_elements(a@, b@, le);
        assert(out->String_0@ == merged(a@, b@, le));
    } else {
        assert(out->String_0@.to_multiset() =~= a@.to_multiset().add(b@.to_multiset()));
    }
    let v = out->String_0@;
    assert forall|i: int, j: int| 0 <= i < j < v.len() && (#[trigger] v[j]) is None implies (
    #[trigger] v[i]) is None by {
        assert(key_at_most(row_keys(out)[i], row_keys(out)[j]));
    }
    assert forall|i: int, j: int, n: int|
        #![trigger v[i]->0@.take(n), v[j]->0@.take(n)]
        0 <= i < j < v.len() && v[i] is Some && v[j] is Some && 0 <= n < v[i]->0@.len() && n
            <= v[j]->0@.len() && v[i]->0@.take(n) == v[j]->0@.take(n) implies n < v[j]->0@.len()
        && v[i]->0@[n] <= v[j]->0@[n] by {
        let x = v[i]->0@;
        let y = v[j]->0@;
        assert(key_at_most(row_keys(out)[i], row_keys(out)[j]));
        assert forall|m: int| 0 <= m < n implies x[m] == y[m] by {
            assert(x.take(n)[m] == y.take(n)[m]);
        }
        lemma_common_prefix(y, x, n);
    }
}

/// However many frames are merged by integers without nulls that ascend, the merged integers are
/// there and ascend.
pub proof fn law_many_frames_of_integers_ascend(
    frames: Seq<FrameView>,
    key: Seq<char>,
    c: int,
    check_schema: bool,
    df: DataFrame,
)
    requires
        admitted(frames, key, check_schema),
        frames.len() > 0,
        forall|k: int|
            0 <= k < frames.len() ==> {
                &&& (#[trigger] frames[k]).wf()
                &&& is_column(frames[k], key, c)
                &&& frames[k].columns[c].data is Int
                &&& forall|i: int|
                    0 <= i < frames[k].columns[c].data->Int_0@.len() ==> (
                    #[trigger] frames[k].columns[c].data->Int_0@[i]) is Some
                &&& forall|i: int, j: int|
                    0 <= i < j < frames[k].columns[c].data->Int_0@.len() ==> (
                    #[trigger] frames[k].columns[c].data->Int_0@[i])->0 <= (
                    #[trigger] frames[k].columns[c].data->Int_0@[j])->0
            },
        many_way(frames, key, check_schema, Ok::<DataFrame, MergeError>(df)),
    ensures
        df@.columns[c].data matches Data::Int(v) && {
            &&& forall|i: int| 0 <= i < v@.len() ==> (#[trigger] v@[i]) is Some
            &&& forall|i: int, j: int|
                0 <= i < j < v@.len() ==> (#[trigger] v@[i])->0 <= (#[trigger] v@[j])->0
        },
{
    let k = kept(frames);
    let le = key_order::<i128>();
    assert(frames[0].wf());
    if k.len() == 1 {
        let i = lemma_kept_member(frames, 0);
        assert(frames[i].wf());
    } else if k.len() > 1 {
        let keys = keys_of(k, key);
        assert forall|m: int| 0 <= m < k.len() implies (#[trigger] keys[m]) == k[m].columns[c]
            && IntKeys::values(keys[m].data) is Some && c < k[m].columns.len() by {
            let i = lemma_kept_member(frames, m);
            assert(frames[i].wf());
            lemma_column_of(frames[i], key, c);
            law_key_values_are_the_values(keys[m].data, 0);
        }
        assert(keys[0].data is Int);
        assert(at_once(frames, key));
        assert forall|i: int| 0 <= i < frames.len() implies sorted_for(
            frames,
            key,
            (#[trigger] frames[i]).columns[c].data,
        ) by {
            let d = frames[i].columns[c].data;
            let values = IntKeys::values(d)->0;
            assert forall|p: int, q: int| 0 <= p < q < values.len() implies le(
                #[trigger] values[p],
                #[trigger] values[q],
            ) by {
                law_key_values_are_the_values(d, p);
                law_key_values_are_the_values(d, q);
                assert(d->Int_0@[p]->0 <= d->Int_0@[q]->0);
            }
        }
        law_many_way_merge_is_sorted(frames, key, c, check_schema, df);
        let order = choose|order: Seq<u8>|
            {
                &&& #[trigger] number_order(keys, order)
                &&& is_frame_merge(
                    Ok::<DataFrame, MergeError>(df),
                    k,
                    k[0].columns.len(),
                    order,
                )
            };
        let d = df@.columns[c].data;
        let ss = columns_at(k, c);
        assert(is_column_merge(df@.columns[c], ss, order));
        let v = d->Int_0@;
        assert forall|p: int| 0 <= p < v.len() implies (#[trigger] v[p]) is Some by {
            law_frames_at_once_give_the_least_key(keys, order, p);
            law_merged_cells_are_read_in_turn(d, ss, order, p);
            let m = order[p] as int;
            assert(keys[m] == k[m].columns[c] && ss[m] == keys[m]);
            law_key_values_are_the_values(keys[m].data, 0);
        }
        let values = IntKeys::values(d)->0;
        assert forall|p: int, q: int| 0 <= p < q < v.len() implies (#[trigger] v[p])->0 <= (
        #[trigger] v[q])->0 by {
            law_key_values_are_the_values(d, p);
            law_key_values_are_the_values(d, q);
            assert(le(values[p], values[q]));
        }
    }
}

/// However many frames are merged by floating point numbers without nulls that ascend in their
/// total order, the merged ones are there and ascend so.
pub proof fn law_many_frames_of_floats_ascend(
    frames: Seq<FrameView>,
    key: Seq<char>,
    c: int,
    check_schema: bool,
    df: DataFrame,
)
    requires
        admitted(frames, key, check_schema),
        frames.len() > 0,
        forall|k: int|
            0 <= k < frames.len() ==> {
                &&& (#[trigger] frames[k]).wf()
                &&& is_column(frames[k], key, c)
                &&& frames[k].columns[c].data is Float
                &&& forall|i: int|
                    0 <= i < frames[k].columns[c].data->Float_0@.len() ==> (
                    #[trigger] frames[k].columns[c].data->Float_0@[i]) is Some
                &&& forall|i: int, j: int|
                    0 <= i < j < frames[k].columns[c].data->Float_0@.len() ==> (
                    #[trigger] frames[k].columns[c].data->Float_0@[i])->0.rank() <= (
                    #[trigger] frames[k].columns[c].data->Float_0@[j])->0.rank()
            },
        many_way(frames, key, check_schema, Ok::<DataFrame, MergeError>(df)),
    ensures
        df@.columns[c].data matches Data::Float(v) && {
            &&& forall|i: int| 0 <= i < v@.len() ==> (#[trigger] v@[i]) is Some
            &&& forall|i: int, j: int|
                0 <= i < j < v@.len() ==> (#[trigger] v@[i])->0.rank() <= (
                #[trigger] v@[j])->0.rank()
        },
{
    let k = kept(frames);
    let le = key_order::<i128>();
    assert(frames[0].wf());
    if k.len() == 1 {
        let i = lemma_kept_member(frames, 0);
        assert(frames[i].wf());
    } else if k.len() > 1 {
        let keys = keys_of(k, key);
        assert forall|m: int| 0 <= m < k.len() implies (#[trigger] keys[m]) == k[m].columns[c]
            && FloatKeys::values(keys[m].data) is Some && c < k[m].columns.len() by {
            let i = lemma_kept_member(frames, m);
            assert(frames[i].wf());
            lemma_column_of(frames[i], key, c);
            law_key_values_are_the_values(keys[m].data, 0);
        }
        assert(keys[0].data is Float);
        assert(at_once(frames, key));
        assert forall|i: int| 0 <= i < frames.len() implies sorted_for(
            frames,
            key,
            (#[trigger] frames[i]).columns[c].data,
        ) by {
            let d = frames[i].columns[c].data;
            let values = FloatKeys::values(d)->0;
            assert forall|p: int, q: int| 0 <= p < q < values.len() implies le(
                #[trigger] values[p],
                #[trigger] values[q],
            ) by {
                law_key_values_are_the_values(d, p);
                law_key_values_are_the_values(d, q);
                assert(d->Float_0@[p]->0.rank() <= d->Float_0@[q]->0.rank());
            }
        }
        law_many_way_merge_is_sorted(frames, key, c, check_schema, df);
        let order = choose|order: Seq<u8>|
            {
                &&& #[trigger] number_order(keys, order)
                &&& is_frame_merge(
                    Ok::<DataFrame, MergeError>(df),
                    k,
                    k[0].columns.len(),
                    order,
                )
            };
        let d = df@.columns[c].data;
        let ss = columns_at(k, c);
        assert(is_column_merge(df@.columns[c], ss, order));
        let v = d->Float_0@;
        assert forall|p: int| 0 <= p < v.len() implies (#[trigger] v[p]) is Some by {
            law_frames_at_once_give_the_least_key(keys, order, p);
            law_merged_cells_are_read_in_turn(d, ss, order, p);
            let m = order[p] as int;
            assert(keys[m] == k[m].columns[c] && ss[m] == keys[m]);
            law_key_values_are_the_values(keys[m].data, 0);
        }
        let values = FloatKeys::values(d)->0;
        assert forall|p: int, q: int| 0 <= p < q < v.len() implies (#[trigger] v[p])->0.rank() <= (
        #[trigger] v[q])->0.rank() by {
            law_key_values_are_the_values(d, p);
            law_key_values_are_the_values(d, q);
            assert(le(values[p], values[q]));
        }
    }
}

} // verus!
