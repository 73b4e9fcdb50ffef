//! What merges of frames give and when they fail, said of the frames and their columns.
use crate::frame::{
    column_of, common_width, data_len, has_column, is_column, lemma_column_of, mismatch_among,
    same_type, schema_mismatch, unmergeable, DataFrame, FrameView, MergeError, Series,
};
use crate::gather::{is_column_merge, plain, row_counts};
use crate::indicator::key_merge_order;
use crate::key_laws::law_which_columns_can_be_keys;
use crate::merge::lens;
use crate::merge_frames::{
    columns_at, heights, is_frame_merge, lemma_total_two, ref_views, refused_column, two_way, views,
};
use crate::merge_many::total;
use crate::merge_many_frames::{
    by_number, kept, key_error, key_lists, keys_of, many_error, many_way, number_order, pairwise,
    schema_error,
};
use vstd::prelude::*;

verus! {

/// A frame is its height and its columns, in their order.
pub proof fn law_a_frame_is_its_columns(df: DataFrame, c: int)
    requires
        0 <= c < df.columns@.len(),
    ensures
        df@.height == df.height,
        df@.columns.len() == df.columns@.len(),
        df@.columns[c] == *df.columns@[c],
{
}

/// A frame is in order where its columns are and each has as many rows as the frame.
pub proof fn law_which_frames_are_in_order(frame: FrameView)
    ensures
        frame.wf() <==> forall|c: int|
            0 <= c < frame.columns.len() ==> {
                &&& (#[trigger] frame.columns[c]).wf()
                &&& data_len(frame.columns[c].data) == frame.height
            },
{
    if frame.wf() {
        assert forall|c: int| 0 <= c < frame.columns.len() implies {
            &&& (#[trigger] frame.columns[c]).wf()
            &&& data_len(frame.columns[c].data) == frame.height
        } by {
            assert(frame.columns[c].spec_len() == frame.height);
        }
    }
}

/// Lists of frames, columns and key values are taken as they are given, one by one.
pub proof fn law_lists_are_taken_one_by_one<K>(
    dfs: Seq<DataFrame>,
    refs: Seq<&DataFrame>,
    ss: Seq<&Series>,
    frames: Seq<FrameView>,
    keys: Seq<Vec<K>>,
    sources: Seq<Seq<K>>,
    key: Seq<char>,
    c: int,
    k: int,
)
    ensures
        views(dfs).len() == dfs.len(),
        0 <= k < dfs.len() ==> views(dfs)[k] == dfs[k]@,
        ref_views(refs).len() == refs.len(),
        0 <= k < refs.len() ==> ref_views(refs)[k] == refs[k]@,
        plain(ss).len() == ss.len(),
        0 <= k < ss.len() ==> plain(ss)[k] == *ss[k],
        0 <= k < ss.len() ==> row_counts(plain(ss)).len() == ss.len() && row_counts(plain(ss))[k]
            == data_len(ss[k].data),
        columns_at(frames, c).len() == frames.len(),
        0 <= k < frames.len() ==> columns_at(frames, c)[k] == frames[k].columns[c],
        heights(frames).len() == frames.len(),
        0 <= k < frames.len() ==> heights(frames)[k] == frames[k].height,
        keys_of(frames, key).len() == frames.len(),
        0 <= k < frames.len() ==> keys_of(frames, key)[k] == column_of(frames[k], key),
        key_lists(keys).len() == keys.len(),
        0 <= k < keys.len() ==> key_lists(keys)[k] == keys[k]@,
        lens(sources).len() == sources.len(),
        0 <= k < sources.len() ==> lens(sources)[k] == sources[k].len(),
{
}

/// A name finds a column where some column has it, and then the first that does.
pub proof fn law_a_name_finds_the_first_column(frame: FrameView, key: Seq<char>, c: int)
    ensures
        has_column(frame, key) <==> exists|d: int|
            0 <= d < frame.columns.len() && (#[trigger] frame.columns[d]).name@ == key,
        0 <= c < frame.columns.len() && frame.columns[c].name@ == key && (forall|d: int|
            0 <= d < c ==> (#[trigger] frame.columns[d]).name@ != key) ==> column_of(frame, key)
            == frame.columns[c],
{
    if exists|d: int| 0 <= d < frame.columns.len() && (#[trigger] frame.columns[d]).name@ == key {
        let d = choose|d: int|
            0 <= d < frame.columns.len() && (#[trigger] frame.columns[d]).name@ == key;
        let first = lemma_first_of_name(frame, key, d);
    }
    if has_column(frame, key) {
        let d = choose|d: int| #[trigger] is_column(frame, key, d);
        assert(frame.columns[d].name@ == key);
    }
    if 0 <= c < frame.columns.len() && frame.columns[c].name@ == key && (forall|d: int|
        0 <= d < c ==> (#[trigger] frame.columns[d]).name@ != key) {
        lemma_column_of(frame, key, c);
    }
}

proof fn lemma_first_of_name(frame: FrameView, key: Seq<char>, d: int) -> (c: int)
    requires
        0 <= d < frame.columns.len(),
        frame.columns[d].name@ == key,
    ensures
        is_column(frame, key, c),
    decreases d,
{
    if exists|e: int| 0 <= e < d && (#[trigger] frame.columns[e]).name@ == key {
        let e = choose|e: int| 0 <= e < d && (#[trigger] frame.columns[e]).name@ == key;
        lemma_first_of_name(frame, key, e)
    } else {
        d
    }
}

/// Two frames differ where, among the columns that both have, two in one place differ in name or
/// in type. The first such place counts, and its names before its types.
pub proof fn law_frames_differ_where_columns_do(left: FrameView, right: FrameView, c: int)
    ensures
        schema_mismatch(left, right) is None <==> forall|d: int|
            0 <= d < left.columns.len() && d < right.columns.len() ==> {
                &&& (#[trigger] left.columns[d]).name@ == right.columns[d].name@
                &&& same_type(left.columns[d], right.columns[d])
            },
        0 <= c < left.columns.len() && c < right.columns.len() && (forall|d: int|
            0 <= d < c ==> {
                &&& (#[trigger] left.columns[d]).name@ == right.columns[d].name@
                &&& same_type(left.columns[d], right.columns[d])
            }) ==> {
            &&& left.columns[c].name@ != right.columns[c].name@ ==> schema_mismatch(left, right)
                == Some(
                MergeError::NameMismatch {
                    left: left.columns[c].name,
                    right: right.columns[c].name,
                },
            )
            &&& left.columns[c].name@ == right.columns[c].name@ && !same_type(
                left.columns[c],
                right.columns[c],
            ) ==> schema_mismatch(left, right) == Some(
                MergeError::SchemaMismatch {
                    left: left.columns[c].dtype,
                    right: right.columns[c].dtype,
                },
            )
        },
        common_width(left, right) <= left.columns.len(),
        common_width(left, right) <= right.columns.len(),
        common_width(left, right) == left.columns.len() || common_width(left, right)
            == right.columns.len(),
{
    lemma_first_mismatch(left, right, common_width(left, right), c);
}

proof fn lemma_first_mismatch(left: FrameView, right: FrameView, n: nat, c: int)
    ensures
        mismatch_among(left, right, n) is None <==> forall|d: int|
            0 <= d < n ==> {
                &&& (#[trigger] left.columns[d]).name@ == right.columns[d].name@
                &&& same_type(left.columns[d], right.columns[d])
            },
        0 <= c < n && (forall|d: int|
            0 <= d < c ==> {
                &&& (#[trigger] left.columns[d]).name@ == right.columns[d].name@
                &&& same_type(left.columns[d], right.columns[d])
            }) ==> {
            &&& left.columns[c].name@ != right.columns[c].name@ ==> mismatch_among(left, right, n)
                == Some(
                MergeError::NameMismatch {
                    left: left.columns[c].name,
                    right: right.columns[c].name,
                },
            )
            &&& left.columns[c].name@ == right.columns[c].name@ && !same_type(
                left.columns[c],
                right.columns[c],
            ) ==> mismatch_among(left, right, n) == Some(
                MergeError::SchemaMismatch {
                    left: left.columns[c].dtype,
                    right: right.columns[c].dtype,
                },
            )
        },
    decreases n,
{
    if n > 0 {
        lemma_first_mismatch(left, right, (n - 1) as nat, c);
        assert(left.columns[n - 1] == left.columns[n - 1]);
    }
}

/// Among the first `n` columns the first that cannot be merged is the one that counts.
pub proof fn law_the_first_refused_column_counts(columns: Seq<Series>, n: nat, c: int)
    ensures
        refused_column(columns, n) is None <==> forall|d: int|
            0 <= d < n ==> unmergeable(#[trigger] columns[d]) is None,
        0 <= c < n && unmergeable(columns[c]) is Some && (forall|d: int|
            0 <= d < c ==> unmergeable(#[trigger] columns[d]) is None) ==> refused_column(
            columns,
            n,
        ) == unmergeable(columns[c]),
    decreases n,
{
    if n > 0 {
        law_the_first_refused_column_counts(columns, (n - 1) as nat, c);
        assert(columns[n - 1] == columns[n - 1]);
    }
}

/// A merge of frames along an order fails for the first column that cannot be merged, and else
/// gives all columns asked for, each merged of the columns in its place.
pub proof fn law_frames_merge_column_by_column(
    res: Result<DataFrame, MergeError>,
    frames: Seq<FrameView>,
    width: nat,
    order: Seq<u8>,
    c: int,
)
    requires
        frames.len() > 0,
        is_frame_merge(res, frames, width, order),
    ensures
        (forall|d: int| 0 <= d < width ==> unmergeable(#[trigger] frames[0].columns[d]) is None)
            <==> res is Ok,
        0 <= c < width && unmergeable(frames[0].columns[c]) is Some && (forall|d: int|
            0 <= d < c ==> unmergeable(#[trigger] frames[0].columns[d]) is None) ==> res == Err::<
            DataFrame,
            MergeError,
        >(MergeError::Unsupported { dtype: unmergeable(frames[0].columns[c])->0 }),
        res matches Ok(df) ==> {
            &&& df@.height == total(heights(frames))
            &&& df@.columns.len() == width
            &&& 0 <= c < width ==> is_column_merge(df@.columns[c], columns_at(frames, c), order)
        },
{
    law_the_first_refused_column_counts(frames[0].columns, width, c);
}

/// Merging two frames fails, in this order, where schemas are checked and differ, where the keys
/// differ in type, where such a key cannot be merged by, and where a column cannot be merged. A
/// frame without rows leaves the other one as it is. Else the rows of both come out, in the columns
/// that both have.
pub proof fn law_two_way_merge_in_full(
    left: FrameView,
    right: FrameView,
    left_s: Series,
    right_s: Series,
    check_schema: bool,
    res: Result<DataFrame, MergeError>,
    c: int,
)
    requires
        two_way(left, right, left_s, right_s, check_schema, res),
    ensures
        check_schema ==> (schema_mismatch(left, right) matches Some(e) ==> res == Err::<
            DataFrame,
            MergeError,
        >(e)),
        !check_schema || schema_mismatch(left, right) is None ==> {
            let width = if left.columns.len() <= right.columns.len() {
                left.columns.len()
            } else {
                right.columns.len()
            };
            &&& !same_type(left_s, right_s) ==> res == Err::<DataFrame, MergeError>(
                MergeError::DataTypeMismatch { left: left_s.dtype, right: right_s.dtype },
            )
            &&& same_type(left_s, right_s) ==> {
                &&& data_len(right_s.data) == 0 ==> (res matches Ok(df) && df@ == left)
                &&& data_len(left_s.data) == 0 && data_len(right_s.data) > 0 ==> (res matches Ok(df)
                    && df@ == right)
                &&& data_len(left_s.data) > 0 && data_len(right_s.data) > 0 ==> {
                    &&& left_s.data is Extension || left_s.data is Opaque ==> res == Err::<
                        DataFrame,
                        MergeError,
                    >(MergeError::Unsupported { dtype: left_s.dtype })
                    &&& !(left_s.data is Extension) && !(left_s.data is Opaque) ==> {
                        &&& res is Ok <==> forall|d: int|
                            0 <= d < width ==> unmergeable(#[trigger] left.columns[d]) is None
                        &&& 0 <= c < width && unmergeable(left.columns[c]) is Some && (forall|
                            d: int,
                        |
                            0 <= d < c ==> unmergeable(#[trigger] left.columns[d]) is None)
                            ==> res == Err::<DataFrame, MergeError>(
                            MergeError::Unsupported { dtype: unmergeable(left.columns[c])->0 },
                        )
                        &&& res matches Ok(df) ==> {
                            &&& df@.height == left.height + right.height
                            &&& df@.columns.len() == width
                            &&& 0 <= c < width ==> is_column_merge(
                                df@.columns[c],
                                seq![left.columns[c], right.columns[c]],
                                key_merge_order(left_s.data, right_s.data)->0,
                            )
                        }
                    }
                }
            }
        },
{
    if (!check_schema || schema_mismatch(left, right) is None) && same_type(left_s, right_s) {
        law_which_columns_can_be_keys(left_s, right_s);
        if data_len(left_s.data) > 0 && data_len(right_s.data) > 0 && !(left_s.data is Extension)
            && !(left_s.data is Opaque) {
            let frames = seq![left, right];
            let width = common_width(left, right);
            let order = key_merge_order(left_s.data, right_s.data)->0;
            lemma_total_two(left, right);
            law_frames_merge_column_by_column(res, frames, width, order, c);
            assert(frames[0] == left);
            assert(columns_at(frames, c) =~= seq![left.columns[c], right.columns[c]]);
        }
    }
}

/// The frames that are kept are those that have rows, in their order.
pub proof fn law_frames_with_rows_are_kept(frames: Seq<FrameView>)
    ensures
        kept(frames) == frames.filter(|f: FrameView| f.height > 0),
    decreases frames.len(),
{
    reveal(Seq::filter);
    if frames.len() > 0 {
        law_frames_with_rows_are_kept(frames.drop_last());
    }
}

/// What is wrong with many frames: that there are none, then, where schemas are checked, the first
/// frame that differs from the first one, then the first frame without the key column or with one
/// of another type than the first frame's.
pub proof fn law_the_first_wrong_frame_counts(
    frames: Seq<FrameView>,
    key: Seq<char>,
    check_schema: bool,
    i: int,
)
    ensures
        frames.len() == 0 ==> many_error(frames, key, check_schema) == Some(MergeError::NoData),
        frames.len() > 0 ==> {
            &&& check_schema && 0 < i < frames.len() && (forall|j: int|
                0 < j < i ==> schema_mismatch(frames[0], #[trigger] frames[j]) is None)
                && schema_mismatch(frames[0], frames[i]) is Some ==> many_error(
                frames,
                key,
                check_schema,
            ) == schema_mismatch(frames[0], frames[i])
            &&& !check_schema || (forall|j: int|
                0 < j < frames.len() ==> schema_mismatch(frames[0], #[trigger] frames[j]) is None)
                ==> {
                &&& many_error(frames, key, check_schema) is None <==> forall|j: int|
                    0 <= j < frames.len() ==> {
                        &&& has_column(#[trigger] frames[j], key)
                        &&& same_type(column_of(frames[0], key), column_of(frames[j], key))
                    }
                &&& 0 <= i < frames.len() && (forall|j: int|
                    0 <= j < i ==> {
                        &&& has_column(#[trigger] frames[j], key)
                        &&& same_type(column_of(frames[0], key), column_of(frames[j], key))
                    }) ==> {
                    &&& !has_column(frames[i], key) ==> many_error(frames, key, check_schema)
                        == Some(MergeError::ColumnNotFound)
                    &&& has_column(frames[i], key) && !same_type(
                        column_of(frames[0], key),
                        column_of(frames[i], key),
                    ) ==> many_error(frames, key, check_schema) == Some(
                        MergeError::DataTypeMismatch {
                            left: column_of(frames[0], key).dtype,
                            right: column_of(frames[i], key).dtype,
                        },
                    )
                }
            }
        },
{
    lemma_first_schema_error(frames, frames.len(), i);
    lemma_first_key_error(frames, key, frames.len(), i);
}

proof fn lemma_first_schema_error(frames: Seq<FrameView>, n: nat, i: int)
    ensures
        schema_error(frames, n) is None <==> forall|j: int|
            0 < j < n ==> schema_mismatch(frames[0], #[trigger] frames[j]) is None,
        0 < i < n && (forall|j: int|
            0 < j < i ==> schema_mismatch(frames[0], #[trigger] frames[j]) is None)
            && schema_mismatch(frames[0], frames[i]) is Some ==> schema_error(frames, n)
            == schema_mismatch(frames[0], frames[i]),
    decreases n,
{
    if n > 1 {
        lemma_first_schema_error(frames, (n - 1) as nat, i);
        assert(frames[n - 1] == frames[n - 1]);
    }
}

proof fn lemma_first_key_error(frames: Seq<FrameView>, key: Seq<char>, n: nat, i: int)
    ensures
        key_error(frames, key, n) is None <==> forall|j: int|
            0 <= j < n ==> {
                &&& has_column(#[trigger] frames[j], key)
                &&& same_type(column_of(frames[0], key), column_of(frames[j], key))
            },
        0 <= i < n && (forall|j: int|
            0 <= j < i ==> {
                &&& has_column(#[trigger] frames[j], key)
                &&& same_type(column_of(frames[0], key), column_of(frames[j], key))
            }) ==> {
            &&& !has_column(frames[i], key) ==> key_error(frames, key, n) == Some(
                MergeError::ColumnNotFound,
            )
            &&& has_column(frames[i], key) && !same_type(
                column_of(frames[0], key),
                column_of(frames[i], key),
            ) ==> key_error(frames, key, n) == Some(
                MergeError::DataTypeMismatch {
                    left: column_of(frames[0], key).dtype,
                    right: column_of(frames[i], key).dtype,
                },
            )
        },
    decreases n,
{
    if n > 0 {
        lemma_first_key_error(frames, key, (n - 1) as nat, i);
        assert(frames[n - 1] == frames[n - 1]);
    }
}

/// Merging many frames fails for what is wrong with them. Where none has rows it gives the first
/// one, where one has rows that one, and else it merges those that have rows: at once where their
/// keys are numbers without nulls, as many columns as the first of them has, or one after the
/// other.
pub proof fn law_many_way_merge_in_full(
    frames: Seq<FrameView>,
    key: Seq<char>,
    check_schema: bool,
    res: Result<DataFrame, MergeError>,
)
    requires
        many_way(frames, key, check_schema, res),
    ensures
        many_error(frames, key, check_schema) matches Some(e) ==> res == Err::<
            DataFrame,
            MergeError,
        >(e),
        many_error(frames, key, check_schema) is None ==> {
            let full = frames.filter(|f: FrameView| f.height > 0);
            &&& full.len() == 0 ==> (res matches Ok(df) && df@ == frames[0])
            &&& full.len() == 1 ==> (res matches Ok(df) && df@ == full[0])
            &&& full.len() > 1 && by_number(keys_of(full, key)) ==> exists|order: Seq<u8>|
                {
                    &&& #[trigger] number_order(keys_of(full, key), order)
                    &&& is_frame_merge(res, full, full[0].columns.len(), order)
                }
            &&& full.len() > 1 && !by_number(keys_of(full, key)) ==> pairwise(
                frames[0],
                frames.drop_first(),
                key,
                check_schema,
                res,
            )
        },
{
    law_frames_with_rows_are_kept(frames);
}

/// Merging frames one after the other: one frame stays as it is, and where the next frame or what
/// was merged so far has no key column, that is the error.
pub proof fn law_pairwise_merge_in_full(
    out: FrameView,
    rest: Seq<FrameView>,
    key: Seq<char>,
    check_schema: bool,
    res: Result<DataFrame, MergeError>,
)
    requires
        pairwise(out, rest, key, check_schema, res),
    ensures
        rest.len() == 0 ==> (res matches Ok(df) && df@ == out),
        rest.len() > 0 && !(has_column(out, key) && has_column(rest[0], key)) ==> res == Err::<
            DataFrame,
            MergeError,
        >(MergeError::ColumnNotFound),
        rest.len() > 0 && has_column(out, key) && has_column(rest[0], key) ==> exists|
            step: Result<DataFrame, MergeError>,
        |
            {
                &&& #[trigger] two_way(
                    out,
                    rest[0],
                    column_of(out, key),
                    column_of(rest[0], key),
                    check_schema,
                    step,
                )
                &&& step matches Err(e) ==> res == Err::<DataFrame, MergeError>(e)
                &&& step matches Ok(df) ==> pairwise(
                    df@,
                    rest.skip(1),
                    key,
                    check_schema,
                    res,
                )
            },
{
    if rest.len() > 0 {
        assert(rest.skip(1) =~= rest.drop_first());
    }
}

} // verus!
