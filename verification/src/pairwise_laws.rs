//! What holds of every merge of many frames, at once or one after the other.
use crate::frame::{
    column_of, is_column, lemma_column_of, Data, DataFrame, FrameView, MergeError,
};
use crate::frame_laws::{
    law_key_merged_at_once_is_sorted, law_two_way_merge_is_sorted, lemma_kept_member,
    lemma_next_step, number_sorted,
};
use crate::gather::is_column_merge;
use crate::keys::{has_no_nan, key_sorted};
use crate::merge_frames::{columns_at, is_frame_merge};
use crate::merge_many_frames::{
    admitted, by_number, kept, keys_of, many_way, number_order, pairwise,
};
use crate::shape::{foldable, lemma_foldable_step, lemma_step};
use vstd::prelude::*;

verus! {

/// Of the frames, the first one is kept where it has rows, and then those kept of the others.
pub proof fn lemma_kept_front(frames: Seq<FrameView>)
    requires
        frames.len() > 0,
    ensures
        kept(frames) == if frames[0].height > 0 {
            seq![frames[0]] + kept(frames.drop_first())
        } else {
            kept(frames.drop_first())
        },
    decreases frames.len(),
{
    let rest = frames.drop_last();
    if frames.len() == 1 {
        assert(rest =~= Seq::<FrameView>::empty());
        assert(frames.drop_first() =~= Seq::<FrameView>::empty());
        assert(kept(rest) =~= Seq::<FrameView>::empty());
        assert(kept(frames) =~= if frames[0].height > 0 {
            seq![frames[0]] + kept(frames.drop_first())
        } else {
            kept(frames.drop_first())
        });
    } else {
        lemma_kept_front(rest);
        assert(rest.drop_first() =~= frames.drop_first().drop_last());
        assert(frames.drop_first().last() == frames.last());
        assert(kept(frames) =~= if frames[0].height > 0 {
            seq![frames[0]] + kept(frames.drop_first())
        } else {
            kept(frames.drop_first())
        });
    }
}

/// Merging one frame after the other keeps them sorted by key.
proof fn lemma_pairwise_sorted(
    out: FrameView,
    rest: Seq<FrameView>,
    key: Seq<char>,
    c: int,
    check_schema: bool,
    df: DataFrame,
)
    requires
        out.wf(),
        foldable(out, rest, key, check_schema),
        is_column(out, key, c),
        key_sorted(out.columns[c].data),
        has_no_nan(out.columns[c].data),
        forall|i: int|
            0 <= i < rest.len() ==> {
                &&& (#[trigger] rest[i]).wf()
                &&& is_column(rest[i], key, c)
                &&& key_sorted(rest[i].columns[c].data)
                &&& has_no_nan(rest[i].columns[c].data)
            },
        pairwise(out, rest, key, check_schema, Ok::<DataFrame, MergeError>(df)),
    ensures
        is_column(df@, key, c),
        key_sorted(df@.columns[c].data),
    decreases rest.len(),
{
    if rest.len() > 0 {
        lemma_column_of(out, key, c);
        lemma_column_of(rest[0], key, c);
        assert(rest[0].wf());
        let next = lemma_next_step(out, rest, key, check_schema, df);
        lemma_foldable_step(out, rest, key, check_schema, next);
        lemma_step(out, rest[0], key, check_schema, next);
        law_two_way_merge_is_sorted(out, rest[0], key, c, check_schema, next);
        lemma_pairwise_sorted(next@, rest.drop_first(), key, c, check_schema, df);
    }
}

/// The frames are merged at once.
pub open spec fn at_once(frames: Seq<FrameView>, key: Seq<char>) -> bool {
    kept(frames).len() > 1 && by_number(keys_of(kept(frames), key))
}

/// A column is sorted in the sense that the merge of the frames goes by.
pub open spec fn sorted_for(frames: Seq<FrameView>, key: Seq<char>, d: Data) -> bool {
    if at_once(frames, key) {
        number_sorted(d)
    } else {
        key_sorted(d) && has_no_nan(d)
    }
}

/// However many frames are merged, and in whichever way: where all of them have the key in place
/// `c` and are sorted by it, so is the merge.
pub proof fn law_many_way_merge_is_sorted(
    frames: Seq<FrameView>,
    key: Seq<char>,
    c: int,
    check_schema: bool,
    df: DataFrame,
)
    requires
        admitted(frames, key, check_schema),
        forall|i: int|
            0 <= i < frames.len() ==> {
                &&& (#[trigger] frames[i]).wf()
                &&& is_column(frames[i], key, c)
                &&& sorted_for(frames, key, frames[i].columns[c].data)
            },
        many_way(frames, key, check_schema, Ok::<DataFrame, MergeError>(df)),
    ensures
        is_column(df@, key, c),
        at_once(frames, key) ==> number_sorted(df@.columns[c].data),
        !at_once(frames, key) ==> key_sorted(df@.columns[c].data),
{
    let k = kept(frames);
    assert forall|j: int| 0 <= j < k.len() implies {
        &&& is_column(#[trigger] k[j], key, c)
        &&& column_of(k[j], key) == k[j].columns[c]
        &&& sorted_for(frames, key, k[j].columns[c].data)
    } by {
        let i = lemma_kept_member(frames, j);
        assert(is_column(frames[i], key, c));
        lemma_column_of(k[j], key, c);
    }
    if k.len() == 0 {
        assert(is_column(frames[0], key, c));
    } else if k.len() == 1 {
        assert(is_column(k[0], key, c));
    } else if at_once(frames, key) {
        let keys = keys_of(k, key);
        let order = choose|order: Seq<u8>|
            {
                &&& #[trigger] number_order(keys, order)
                &&& is_frame_merge(
                    Ok::<DataFrame, MergeError>(df),
                    k,
                    k[0].columns.len(),
                    order,
                )
            };
        assert(is_column(k[0], key, c));
        assert forall|d: int| 0 <= d <= c implies (#[trigger] df@.columns[d]).name
            == k[0].columns[d].name by {
            assert(is_column_merge(df@.columns[d], columns_at(k, d), order));
            assert(columns_at(k, d)[0] == k[0].columns[d]);
        }
        assert forall|d: int| 0 <= d < c implies (#[trigger] df@.columns[d]).name@ != key by {
            assert(k[0].columns[d].name@ != key);
        }
        assert(is_column_merge(df@.columns[c], columns_at(k, c), order));
        assert forall|j: int| 0 <= j < k.len() implies columns_at(k, c)[j] == keys[j]
            && number_sorted((#[trigger] keys[j]).data) by {
            assert(column_of(k[j], key) == k[j].columns[c]);
        }
        assert(columns_at(k, c) =~= keys);
        law_key_merged_at_once_is_sorted(keys, order, df@.columns[c]);
    } else {
        let rest = frames.drop_first();
        assert(is_column(frames[0], key, c));
        assert forall|i: int| 0 <= i < rest.len() implies {
            &&& (#[trigger] rest[i]).wf()
            &&& is_column(rest[i], key, c)
            &&& key_sorted(rest[i].columns[c].data)
            &&& has_no_nan(rest[i].columns[c].data)
        } by {
            assert(rest[i] == frames[i + 1]);
        }
        lemma_pairwise_sorted(frames[0], rest, key, c, check_schema, df);
    }
}


} // verus!
