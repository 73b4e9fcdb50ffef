//! Merging frames that are sorted by a key column.
use crate::frame::{
    common_width, follows, lemma_follows_first, lemma_own_width, reads_nothing, same_type,
    same_width, schema_mismatch, unmergeable, DataFrame, FrameView, MergeError, Series,
};
use crate::gather::{is_column_merge, plain, row_counts};
use crate::indicator::{key_merge_order, lemma_key_order_uses_up, series_to_merge_indicator};
use crate::merge_many::total;
use crate::physical::{joinable, merge_logical};
use std::sync::Arc;
use vstd::prelude::*;

verus! {

/// The column in place `c` of each frame.
pub open spec fn columns_at(frames: Seq<FrameView>, c: int) -> Seq<Series> {
    Seq::new(frames.len(), |k: int| frames[k].columns[c])
}

/// The heights of the frames.
pub open spec fn heights(frames: Seq<FrameView>) -> Seq<nat> {
    Seq::new(frames.len(), |k: int| frames[k].height)
}

/// What the frames hold.
pub open spec fn views(dfs: Seq<DataFrame>) -> Seq<FrameView> {
    Seq::new(dfs.len(), |k: int| dfs[k]@)
}

/// What the frames referred to hold.
pub open spec fn ref_views(dfs: Seq<&DataFrame>) -> Seq<FrameView> {
    Seq::new(dfs.len(), |k: int| dfs[k]@)
}

/// The first type among the first `n` columns for which a merge is refused.
pub open spec fn refused_column(columns: Seq<Series>, n: nat) -> Option<String>
    decreases n,
{
    if n == 0 {
        None
    } else {
        match refused_column(columns, (n - 1) as nat) {
            Some(dtype) => Some(dtype),
            None => unmergeable(columns[n - 1]),
        }
    }
}

/// `res` is the first `width` columns of the frames merged along `order`.
pub open spec fn is_frame_merge(
    res: Result<DataFrame, MergeError>,
    frames: Seq<FrameView>,
    width: nat,
    order: Seq<u8>,
) -> bool {
    match refused_column(frames[0].columns, width) {
        Some(dtype) => res == Err::<DataFrame, MergeError>(MergeError::Unsupported { dtype }),
        None => match res {
            Ok(df) => {
                &&& df@.height == total(heights(frames))
                &&& df@.columns.len() == width
                &&& forall|c: int|
                    0 <= c < width ==> is_column_merge(
                        #[trigger] df@.columns[c],
                        columns_at(frames, c),
                        order,
                    )
            },
            Err(_) => false,
        },
    }
}

/// A refusal among fewer columns is the first one among more.
pub proof fn lemma_refused_column_stays(columns: Seq<Series>, m: nat, n: nat)
    requires
        m <= n,
        refused_column(columns, m) is Some,
    ensures
        refused_column(columns, n) == refused_column(columns, m),
    decreases n,
{
    if m < n {
        lemma_refused_column_stays(columns, m, (n - 1) as nat);
    }
}

/// Where no column is refused, none of fewer is.
pub proof fn lemma_none_refused(columns: Seq<Series>, m: nat, n: nat)
    requires
        m <= n,
        refused_column(columns, n) is None,
    ensures
        refused_column(columns, m) is None,
{
    if refused_column(columns, m) is Some {
        lemma_refused_column_stays(columns, m, n);
    }
}

/// All frames have a column in place `c`, and these can be merged along `order`.
pub open spec fn mergeable_at(frames: Seq<FrameView>, c: int, order: Seq<u8>) -> bool {
    &&& forall|k: int| 0 <= k < frames.len() ==> c < (#[trigger] frames[k]).columns.len()
    &&& joinable(columns_at(frames, c), order)
}

/// Merges the first `width` columns of the frames along `merge_indicator`.
pub(crate) fn merge_columns(
    dfs: &Vec<&DataFrame>,
    width: usize,
    merge_indicator: &Vec<u8>,
    height: usize,
) -> (res: Result<DataFrame, MergeError>)
    requires
        dfs@.len() > 0,
        forall|c: int|
            0 <= c < width && refused_column(dfs@[0]@.columns, c as nat) is None
                ==> #[trigger] mergeable_at(ref_views(dfs@), c, merge_indicator@),
        height == total(heights(ref_views(dfs@))),
        merge_indicator@.len() == height,
    ensures
        is_frame_merge(res, ref_views(dfs@), width as nat, merge_indicator@),
        res matches Ok(df) ==> df@.wf(),
{
    let ghost frames = ref_views(dfs@);
    let ghost order = merge_indicator@;
    let mut columns: Vec<Arc<Series>> = Vec::with_capacity(width);
    let mut c: usize = 0;
    while c < width
        invariant
            dfs@.len() > 0,
            frames == ref_views(dfs@),
            order == merge_indicator@,
            forall|d: int|
                0 <= d < width && refused_column(dfs@[0]@.columns, d as nat) is None
                    ==> #[trigger] mergeable_at(ref_views(dfs@), d, order),
            c <= width,
            columns@.len() == c,
            refused_column(frames[0].columns, c as nat) is None,
            forall|d: int|
                0 <= d < c ==> {
                    &&& is_column_merge(*#[trigger] columns@[d], columns_at(frames, d), order)
                    &&& columns@[d].wf()
                    &&& columns@[d].spec_len() == order.len()
                },
        decreases width - c,
    {
        let mut ss: Vec<&Series> = Vec::with_capacity(dfs.len());
        let mut k: usize = 0;
        proof {
            assert(mergeable_at(frames, c as int, order));
        }
        while k < dfs.len()
            invariant
                k <= dfs@.len(),
                frames == ref_views(dfs@),
                mergeable_at(frames, c as int, order),
                ss@.len() == k,
                forall|j: int| 0 <= j < k ==> *(#[trigger] ss@[j]) == dfs@[j]@.columns[c as int],
            decreases dfs@.len() - k,
        {
            proof {
                assert(c < frames[k as int].columns.len());
            }
            ss.push(&dfs[k].columns[c]);
            k += 1;
        }
        proof {
            assert(plain(ss@) =~= columns_at(frames, c as int));
            assert(joinable(columns_at(frames, c as int), order));
            assert(*ss@[0] == frames[0].columns[c as int]);
        }
        match merge_logical(&ss, merge_indicator) {
            Ok(merged) => {
                columns.push(Arc::new(merged));
            },
            Err(e) => {
                proof {
                    lemma_refused_column_stays(
                        frames[0].columns,
                        (c + 1) as nat,
                        width as nat,
                    );
                }
                return Err(e);
            },
        }
        c += 1;
    }
    let df = DataFrame { height, columns };
    proof {
        assert forall|d: int| 0 <= d < width implies is_column_merge(
            #[trigger] df@.columns[d],
            columns_at(frames, d),
            order,
        ) && df@.columns[d].wf() && df@.columns[d].spec_len() == height by {
            assert(df@.columns[d] == *columns@[d]);
        }
    }
    Ok(df)
}

/// The columns of `right` can be merged into those of `left` by a key column like `key`: all that
/// come before one of a type that is refused. Merging by a key of nulls reads no rows, so neither
/// may the merge of a column.
pub open spec fn joins(left: FrameView, right: FrameView, key: Series) -> bool {
    forall|c: int|
        0 <= c < common_width(left, right) && refused_column(left.columns, c as nat) is None ==> {
            &&& follows((#[trigger] left.columns[c]).data, right.columns[c].data)
            &&& same_width(left.columns[c], right.columns[c])
            &&& key.data is Null ==> reads_nothing(left.columns[c].data)
        }
}

/// A merge of two frames by the given key columns gets as far as merging columns.
pub open spec fn merges(
    left: FrameView,
    right: FrameView,
    left_s: Series,
    right_s: Series,
    check_schema: bool,
) -> bool {
    &&& check_schema ==> schema_mismatch(left, right) is None
    &&& same_type(left_s, right_s)
    &&& left_s.spec_len() > 0
    &&& right_s.spec_len() > 0
    &&& key_merge_order(left_s.data, right_s.data) is Some
}

/// `res` is what merging two frames by the given key columns gives.
pub open spec fn two_way(
    left: FrameView,
    right: FrameView,
    left_s: Series,
    right_s: Series,
    check_schema: bool,
    res: Result<DataFrame, MergeError>,
) -> bool {
    if check_schema && schema_mismatch(left, right) is Some {
        res == Err::<DataFrame, MergeError>(schema_mismatch(left, right)->0)
    } else if !same_type(left_s, right_s) {
        res == Err::<DataFrame, MergeError>(
            MergeError::DataTypeMismatch { left: left_s.dtype, right: right_s.dtype },
        )
    } else if right_s.spec_len() == 0 {
        res matches Ok(df) && df@ == left
    } else if left_s.spec_len() == 0 {
        res matches Ok(df) && df@ == right
    } else {
        match key_merge_order(left_s.data, right_s.data) {
            None => res == Err::<DataFrame, MergeError>(
                MergeError::Unsupported { dtype: left_s.dtype },
            ),
            Some(order) => is_frame_merge(
                res,
                seq![left, right],
                common_width(left, right),
                order,
            ),
        }
    }
}

/// Merges two frames by the given key columns, one key per row of each frame. The columns are
/// named and typed as those of `left`.
pub fn _merge_sorted_dfs(
    left: &DataFrame,
    right: &DataFrame,
    left_s: &Series,
    right_s: &Series,
    check_schema: bool,
) -> (res: Result<DataFrame, MergeError>)
    requires
        left@.wf(),
        right@.wf(),
        left_s.wf(),
        right_s.wf(),
        merges(left@, right@, *left_s, *right_s, check_schema) ==> {
            &&& left_s.spec_len() == left@.height
            &&& right_s.spec_len() == right@.height
            &&& left@.height + right@.height <= usize::MAX
            &&& joins(left@, right@, *left_s)
        },
    ensures
        two_way(left@, right@, *left_s, *right_s, check_schema, res),
        res matches Ok(df) ==> df@.wf(),
{
    if check_schema {
        match left.schema_equal(right) {
            Ok(()) => {},
            Err(e) => {
                return Err(e);
            },
        }
    }
    if !left_s.has_type_of(right_s) {
        return Err(
            MergeError::DataTypeMismatch {
                left: left_s.dtype.clone(),
                right: right_s.dtype.clone(),
            },
        );
    }
    // If one frame is empty, we can return the other immediately.
    if right_s.len() == 0 {
        return Ok(left.duplicate());
    } else if left_s.len() == 0 {
        return Ok(right.duplicate());
    }
    let merge_indicator = match series_to_merge_indicator(left_s, right_s) {
        Ok(out) => out,
        Err(e) => {
            return Err(e);
        },
    };
    let width: usize = if left.width() <= right.width() {
        left.width()
    } else {
        right.width()
    };
    let mut dfs: Vec<&DataFrame> = Vec::with_capacity(2);
    dfs.push(left);
    dfs.push(right);
    let height: usize = left.height + right.height;
    proof {
        let order = merge_indicator@;
        let frames = ref_views(dfs@);
        assert(frames =~= seq![left@, right@]);
        lemma_total_two(left@, right@);
        if !(left_s.data is Null) {
            lemma_key_order_uses_up(left_s.data, right_s.data);
        }
        assert forall|c: int|
            0 <= c < width && refused_column(left@.columns, c as nat) is None implies
            #[trigger] mergeable_at(frames, c, order) by {
            let ss = columns_at(frames, c);
            assert(ss[0] == left@.columns[c] && ss[1] == right@.columns[c]);
            assert(left@.columns[c].wf() && right@.columns[c].wf());
            assert(follows(left@.columns[c].data, right@.columns[c].data));
            lemma_follows_first(left@.columns[c].data, right@.columns[c].data);
            lemma_own_width(left@.columns[c]);
            assert(row_counts(ss) =~= seq![left@.height, right@.height]);
        }
    }
    merge_columns(&dfs, width, &merge_indicator, height)
}

/// The rows of two frames.
pub proof fn lemma_total_two(left: FrameView, right: FrameView)
    ensures
        total(heights(seq![left, right])) == left.height + right.height,
{
    let h = heights(seq![left, right]);
    assert(h.drop_last().drop_last() =~= Seq::<nat>::empty());
    reveal_with_fuel(total, 3);
}

} // verus!
