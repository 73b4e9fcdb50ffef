//! Merging any number of frames that are sorted by a key column.
use crate::cells::Float64;
use crate::frame::{
    column_of, data_len, follows, has_column, is_column, lemma_column_of, lemma_follows_first,
    lemma_own_width, same_type, same_width, schema_mismatch, Data, DataFrame, FrameView, MergeError,
    Series,
};
use crate::gather::{plain, row_counts};
use crate::heap::lawful;
use crate::merge::lens;
use crate::merge_frames::{
    columns_at, heights, is_frame_merge, merge_columns, mergeable_at, ref_views, refused_column,
    two_way, views, _merge_sorted_dfs,
};
use crate::merge_many::{is_many_order, lemma_uses_up_len, many_merge_indicator, total};
use crate::shape::{foldable, lemma_foldable_step};
use vstd::prelude::*;

verus! {

/// The frames that have rows.
pub open spec fn kept(frames: Seq<FrameView>) -> Seq<FrameView>
    decreases frames.len(),
{
    if frames.len() == 0 {
        Seq::empty()
    } else {
        let rest = kept(frames.drop_last());
        if frames.last().height > 0 {
            rest.push(frames.last())
        } else {
            rest
        }
    }
}

/// `res` is what merging `out` with each of `rest` in turn gives.
pub open spec fn pairwise(
    out: FrameView,
    rest: Seq<FrameView>,
    key: Seq<char>,
    check_schema: bool,
    res: Result<DataFrame, MergeError>,
) -> bool
    decreases rest.len(),
{
    if rest.len() == 0 {
        res matches Ok(df) && df@ == out
    } else if !has_column(out, key) || !has_column(rest[0], key) {
        res == Err::<DataFrame, MergeError>(MergeError::ColumnNotFound)
    } else {
        exists|step: Result<DataFrame, MergeError>|
            {
                &&& #[trigger] two_way(
                    out,
                    rest[0],
                    column_of(out, key),
                    column_of(rest[0], key),
                    check_schema,
                    step,
                )
                &&& match step {
                    Ok(df) => pairwise(df@, rest.drop_first(), key, check_schema, res),
                    Err(e) => res == Err::<DataFrame, MergeError>(e),
                }
            }
    }
}

/// The rows of a prefix are no more than those of all frames.
proof fn lemma_total_prefix(sizes: Seq<nat>, m: int)
    requires
        0 <= m < sizes.len(),
    ensures
        total(sizes.take(m + 1)) == total(sizes.take(m)) + sizes[m],
        total(sizes.take(m + 1)) <= total(sizes),
    decreases sizes.len() - m,
{
    assert(sizes.take(m + 1).drop_last() =~= sizes.take(m));
    if m + 1 < sizes.len() {
        lemma_total_prefix(sizes, m + 1);
    } else {
        assert(sizes.take(m + 1) =~= sizes);
    }
}

/// Merges the frames one after the other.
pub fn merge_sorted_dfs_pairwise(dfs: &[DataFrame], key: &str, check_schema: bool) -> (res: Result<
    DataFrame,
    MergeError,
>)
    requires
        forall|i: int| 0 <= i < dfs@.len() ==> (#[trigger] dfs@[i])@.wf(),
        dfs@.len() > 0 ==> foldable(
            dfs@[0]@,
            views(dfs@).drop_first(),
            key@,
            check_schema,
        ),
    ensures
        dfs@.len() == 0 ==> res == Err::<DataFrame, MergeError>(MergeError::NoData),
        dfs@.len() > 0 ==> pairwise(
            dfs@[0]@,
            views(dfs@).drop_first(),
            key@,
            check_schema,
            res,
        ),
        res matches Ok(df) ==> df@.wf(),
{
    if dfs.len() == 0 {
        return Err(MergeError::NoData);
    }
    let ghost frames = views(dfs@);
    let mut out: DataFrame = dfs[0].duplicate();
    let mut m: usize = 1;
    proof {
        assert(frames.skip(1) =~= frames.drop_first());
    }
    while m < dfs.len()
        invariant
            forall|i: int| 0 <= i < dfs@.len() ==> (#[trigger] dfs@[i])@.wf(),
            frames == views(dfs@),
            1 <= m <= dfs@.len(),
            out@.wf(),
            foldable(out@, frames.skip(m as int), key@, check_schema),
            forall|r: Result<DataFrame, MergeError>| #[trigger]
                pairwise(out@, frames.skip(m as int), key@, check_schema, r) ==> pairwise(
                    frames[0],
                    frames.drop_first(),
                    key@,
                    check_schema,
                    r,
                ),
        decreases dfs@.len() - m,
    {
        let df: &DataFrame = &dfs[m];
        let ghost before = out@;
        let ghost rest = frames.skip(m as int);
        proof {
            assert(rest[0] == df@);
            assert(rest.drop_first() =~= frames.skip(m + 1));
            assert(dfs@[m as int]@.wf());
        }
        let (left_s, right_s) = match (out.column(key), df.column(key)) {
            (Some(l), Some(r)) => (l, r),
            _ => {
                proof {
                    assert(pairwise(
                        before,
                        rest,
                        key@,
                        check_schema,
                        Err::<DataFrame, MergeError>(MergeError::ColumnNotFound),
                    ));
                }
                return Err(MergeError::ColumnNotFound);
            },
        };
        proof {
            lemma_key_wf(before, key@);
            lemma_key_wf(df@, key@);
        }
        let step = _merge_sorted_dfs(&out, df, left_s, right_s, check_schema);
        proof {
            assert(two_way(
                before,
                rest[0],
                column_of(before, key@),
                column_of(rest[0], key@),
                check_schema,
                step,
            ));
        }
        match step {
            Err(e) => {
                proof {
                    assert(pairwise(
                        before,
                        rest,
                        key@,
                        check_schema,
                        Err::<DataFrame, MergeError>(e),
                    ));
                }
                return Err(e);
            },
            Ok(merged) => {
                proof {
                    assert forall|r: Result<DataFrame, MergeError>| #[trigger]
                        pairwise(
                            merged@,
                            frames.skip(m + 1),
                            key@,
                            check_schema,
                            r,
                        ) implies pairwise(
                        frames[0],
                        frames.drop_first(),
                        key@,
                        check_schema,
                        r,
                    ) by {
                        assert(pairwise(before, rest, key@, check_schema, r));
                    }
                    lemma_foldable_step(before, rest, key@, check_schema, merged);
                }
                out = merged;
            },
        }
        m += 1;
    }
    proof {
        assert(frames.skip(m as int) =~= Seq::<FrameView>::empty());
        assert(pairwise(
            out@,
            frames.skip(m as int),
            key@,
            check_schema,
            Ok::<DataFrame, MergeError>(out),
        ));
    }
    Ok(out)
}

/// The key column of a frame in order.
proof fn lemma_key_wf(frame: FrameView, key: Seq<char>)
    requires
        frame.wf(),
        has_column(frame, key),
    ensures
        column_of(frame, key).wf(),
        column_of(frame, key).spec_len() == frame.height,
{
    let c = choose|c: int| #[trigger] is_column(frame, key, c);
    lemma_column_of(frame, key, c);
}

/// `right` has all columns of `left` that come before one of a type that is refused, and they can
/// be merged into them.
pub open spec fn covers(left: FrameView, right: FrameView) -> bool {
    forall|c: int|
        0 <= c < left.columns.len() && refused_column(left.columns, c as nat) is None ==> {
            &&& c < right.columns.len()
            &&& follows((#[trigger] left.columns[c]).data, right.columns[c].data)
            &&& same_width(left.columns[c], right.columns[c])
        }
}

/// The key values of each frame.
pub open spec fn key_lists<K>(keys: Seq<Vec<K>>) -> Seq<Seq<K>> {
    keys.map_values(|v: Vec<K>| v@)
}

/// Merges all frames at once, each by its list of key values, one per row.
pub fn merge_ordered_frames<K: Ord + Copy>(dfs: &Vec<&DataFrame>, keys: &Vec<Vec<K>>) -> (res:
    Result<DataFrame, MergeError>)
    requires
        lawful::<K>(),
        0 < dfs@.len() <= 256,
        keys@.len() == dfs@.len(),
        total(heights(ref_views(dfs@))) <= usize::MAX,
        forall|k: int|
            0 <= k < dfs@.len() ==> {
                &&& (#[trigger] dfs@[k])@.wf()
                &&& dfs@[k]@.height > 0
                &&& dfs@[k]@.height == keys@[k]@.len()
                &&& covers(dfs@[0]@, dfs@[k]@)
            },
    ensures
        exists|order: Seq<u8>|
            {
                &&& #[trigger] is_many_order(key_lists(keys@), order)
                &&& is_frame_merge(
                    res,
                    ref_views(dfs@),
                    dfs@[0]@.columns.len(),
                    order,
                )
            },
        res matches Ok(df) ==> df@.wf(),
{
    let ghost frames = ref_views(dfs@);
    let ghost sizes = heights(frames);
    let mut total_len: usize = 0;
    let mut k: usize = 0;
    proof {
        assert(sizes.take(0) =~= Seq::<nat>::empty());
    }
    while k < dfs.len()
        invariant
            k <= dfs@.len(),
            sizes == heights(ref_views(dfs@)),
            total(sizes) <= usize::MAX,
            total_len == total(sizes.take(k as int)),
        decreases dfs@.len() - k,
    {
        proof {
            lemma_total_prefix(sizes, k as int);
            assert(sizes[k as int] == dfs@[k as int]@.height);
        }
        total_len += dfs[k].height;
        k += 1;
    }
    proof {
        assert forall|i: int| 0 <= i < keys@.len() implies (#[trigger] keys@[i])@.len() > 0 by {
            assert(dfs@[i]@.height > 0);
        }
    }
    let merge_indicator = many_merge_indicator(keys);
    let width: usize = dfs[0].width();
    proof {
        let order = merge_indicator@;
        assert(sizes.take(sizes.len() as int) =~= sizes);
        assert forall|i: int| 0 <= i < keys@.len() implies #[trigger] lens(
            key_lists(keys@),
        )[i] == sizes[i] by {
            assert(dfs@[i]@.height == keys@[i]@.len());
        }
        assert(lens(key_lists(keys@)) =~= sizes);
        lemma_uses_up_len(sizes, order);
        assert forall|c: int|
            0 <= c < width && refused_column(dfs@[0]@.columns, c as nat) is None implies
            #[trigger] mergeable_at(frames, c, order) by {
            let ss = columns_at(frames, c);
            assert forall|j: int| 0 <= j < ss.len() implies (#[trigger] ss[j]).wf() && follows(
                ss[0].data,
                ss[j].data,
            ) && same_width(ss[0], ss[j]) && row_counts(ss)[j] == sizes[j] && c
                < frames[j].columns.len() by {
                assert(dfs@[j]@.wf());
                assert(ss[j] == dfs@[j]@.columns[c]);
                assert(ss[0] == dfs@[0]@.columns[c]);
                assert(covers(dfs@[0]@, dfs@[j]@));
            }
            assert forall|j: int| 0 <= j < frames.len() implies c < (
            #[trigger] frames[j]).columns.len() by {
                assert(ss[j].wf());
            }
            assert(row_counts(ss) =~= sizes);
        }
    }
    merge_columns(dfs, width, &merge_indicator, total_len)
}

/// Every value is there.
pub open spec fn all_some<C>(v: Seq<Option<C>>) -> bool {
    forall|i: int| 0 <= i < v.len() ==> (#[trigger] v[i]) is Some
}

/// The values themselves.
pub open spec fn somes<C>(v: Seq<Option<C>>) -> Seq<C> {
    Seq::new(v.len(), |i: int| v[i]->0)
}

/// A physical type of numbers, by which frames can be merged at once.
pub trait Numeric {
    type K: Ord + Copy;

    /// The key values of a column of this type that has no nulls.
    spec fn values(d: Data) -> Option<Seq<Self::K>>;

    /// The order of the key values is total.
    proof fn lemma_lawful()
        ensures
            lawful::<Self::K>(),
    ;

    /// There is one key value per row.
    proof fn lemma_len(d: Data)
        ensures
            Self::values(d) matches Some(s) ==> s.len() == data_len(d),
    ;

    /// The key values of a column of this type that has no nulls.
    fn key_values(d: &Data) -> (r: Option<Vec<Self::K>>)
        ensures
            match r {
                Some(v) => Self::values(*d) == Some(v@),
                None => Self::values(*d) is None,
            },
    ;
}

/// The values of a column that has no nulls.
fn unwrap_all<C: Copy>(v: &Vec<Option<C>>) -> (r: Option<Vec<C>>)
    ensures
        match r {
            Some(out) => all_some(v@) && out@ == somes(v@),
            None => !all_some(v@),
        },
{
    let mut out: Vec<C> = Vec::with_capacity(v.len());
    let mut i: usize = 0;
    while i < v.len()
        invariant
            i <= v@.len(),
            out@ == somes(v@).take(i as int),
            forall|j: int| 0 <= j < i ==> (#[trigger] v@[j]) is Some,
        decreases v@.len() - i,
    {
        match v[i] {
            Some(c) => {
                out.push(c);
            },
            None => {
                return None;
            },
        }
        i += 1;
    }
    proof {
        assert(out@ =~= somes(v@));
    }
    Some(out)
}

/// Signed integers.
pub struct IntKeys;

impl Numeric for IntKeys {
    type K = i128;

    open spec fn values(d: Data) -> Option<Seq<i128>> {
        match d {
            Data::Int(v) => if all_some(v@) {
                Some(somes(v@))
            } else {
                None
            },
            _ => None,
        }
    }

    proof fn lemma_lawful() {
        broadcast use vstd::laws_cmp::group_laws_cmp;

    }

    proof fn lemma_len(d: Data) {
    }

    fn key_values(d: &Data) -> (r: Option<Vec<i128>>) {
        match d {
            Data::Int(v) => unwrap_all(v),
            _ => None,
        }
    }
}

/// Unsigned integers.
pub struct UIntKeys;

impl Numeric for UIntKeys {
    type K = u128;

    open spec fn values(d: Data) -> Option<Seq<u128>> {
        match d {
            Data::UInt(v) => if all_some(v@) {
                Some(somes(v@))
            } else {
                None
            },
            _ => None,
        }
    }

    proof fn lemma_lawful() {
        broadcast use vstd::laws_cmp::group_laws_cmp;

    }

    proof fn lemma_len(d: Data) {
    }

    fn key_values(d: &Data) -> (r: Option<Vec<u128>>) {
        match d {
            Data::UInt(v) => unwrap_all(v),
            _ => None,
        }
    }
}

/// Logical types, by the integers that store them.
pub struct LogicalKeys;

impl Numeric for LogicalKeys {
    type K = i128;

    open spec fn values(d: Data) -> Option<Seq<i128>> {
        match d {
            Data::Logical(s) => IntKeys::values(s.data),
            _ => None,
        }
    }

    proof fn lemma_lawful() {
        broadcast use vstd::laws_cmp::group_laws_cmp;

    }

    proof fn lemma_len(d: Data) {
        reveal_with_fuel(data_len, 2);
    }

    fn key_values(d: &Data) -> (r: Option<Vec<i128>>) {
        match d {
            Data::Logical(s) => IntKeys::key_values(&s.data),
            _ => None,
        }
    }
}

/// The codes of categoricals and enums.
pub struct CodeKeys;

impl Numeric for CodeKeys {
    type K = u128;

    open spec fn values(d: Data) -> Option<Seq<u128>> {
        match d {
            Data::Categorical(s, _) => UIntKeys::values(s.data),
            _ => None,
        }
    }

    proof fn lemma_lawful() {
        broadcast use vstd::laws_cmp::group_laws_cmp;

    }

    proof fn lemma_len(d: Data) {
        reveal_with_fuel(data_len, 2);
    }

    fn key_values(d: &Data) -> (r: Option<Vec<u128>>) {
        match d {
            Data::Categorical(s, _) => UIntKeys::key_values(&s.data),
            _ => None,
        }
    }
}

/// Floating point numbers, in their total order.
pub struct FloatKeys;

/// The rank of each number.
pub open spec fn ranks(v: Seq<Float64>) -> Seq<i128> {
    Seq::new(v.len(), |i: int| v[i].rank() as i128)
}

impl Numeric for FloatKeys {
    type K = i128;

    open spec fn values(d: Data) -> Option<Seq<i128>> {
        match d {
            Data::Float(v) => if all_some(v@) {
                Some(ranks(somes(v@)))
            } else {
                None
            },
            _ => None,
        }
    }

    proof fn lemma_lawful() {
        broadcast use vstd::laws_cmp::group_laws_cmp;

    }

    proof fn lemma_len(d: Data) {
    }

    fn key_values(d: &Data) -> (r: Option<Vec<i128>>) {
        match d {
            Data::Float(v) => match unwrap_all(v) {
                Some(numbers) => Some(rank_all(&numbers)),
                None => None,
            },
            _ => None,
        }
    }
}

/// The rank of each number.
fn rank_all(v: &Vec<Float64>) -> (out: Vec<i128>)
    ensures
        out@ == ranks(v@),
{
    let mut out: Vec<i128> = Vec::with_capacity(v.len());
    let mut i: usize = 0;
    while i < v.len()
        invariant
            i <= v@.len(),
            out@ == ranks(v@).take(i as int),
        decreases v@.len() - i,
    {
        out.push(v[i].to_rank());
        i += 1;
    }
    out
}

/// The key values of each column.
pub open spec fn key_values_of<P: Numeric>(keys: Seq<Series>) -> Seq<Seq<P::K>> {
    Seq::new(keys.len(), |k: int| P::values(keys[k].data)->0)
}

/// Every key column is of this type and has no nulls.
pub open spec fn all_of<P: Numeric>(keys: Seq<Series>) -> bool {
    forall|k: int| 0 <= k < keys.len() ==> P::values((#[trigger] keys[k]).data) is Some
}

/// The keys are numbers without nulls, so that the frames can be merged at once.
pub open spec fn by_number(keys: Seq<Series>) -> bool {
    match keys[0].data {
        Data::Int(_) => all_of::<IntKeys>(keys),
        Data::UInt(_) => all_of::<UIntKeys>(keys),
        Data::Float(_) => all_of::<FloatKeys>(keys),
        Data::Logical(_) => all_of::<LogicalKeys>(keys),
        Data::Categorical(_, _) => all_of::<CodeKeys>(keys),
        _ => false,
    }
}

/// `order` is the order in which frames with such keys merge at once.
pub open spec fn number_order(keys: Seq<Series>, order: Seq<u8>) -> bool {
    match keys[0].data {
        Data::Int(_) => is_many_order(key_values_of::<IntKeys>(keys), order),
        Data::UInt(_) => is_many_order(key_values_of::<UIntKeys>(keys), order),
        Data::Float(_) => is_many_order(key_values_of::<FloatKeys>(keys), order),
        Data::Logical(_) => is_many_order(key_values_of::<LogicalKeys>(keys), order),
        Data::Categorical(_, _) => is_many_order(key_values_of::<CodeKeys>(keys), order),
        _ => false,
    }
}

/// The key column of each frame.
pub open spec fn keys_of(frames: Seq<FrameView>, key: Seq<char>) -> Seq<Series> {
    Seq::new(frames.len(), |k: int| column_of(frames[k], key))
}

/// The first difference between the columns of the first frame and those of another of the first
/// `n` frames.
pub open spec fn schema_error(frames: Seq<FrameView>, n: nat) -> Option<MergeError>
    decreases n,
{
    if n <= 1 {
        None
    } else {
        match schema_error(frames, (n - 1) as nat) {
            Some(e) => Some(e),
            None => schema_mismatch(frames[0], frames[n - 1]),
        }
    }
}

/// What is first wrong with the key columns of the first `n` frames.
pub open spec fn key_error(frames: Seq<FrameView>, key: Seq<char>, n: nat) -> Option<MergeError>
    decreases n,
{
    if n == 0 {
        None
    } else {
        match key_error(frames, key, (n - 1) as nat) {
            Some(e) => Some(e),
            None => if !has_column(frames[n - 1], key) {
                Some(MergeError::ColumnNotFound)
            } else if !same_type(column_of(frames[0], key), column_of(frames[n - 1], key)) {
                Some(
                    MergeError::DataTypeMismatch {
                        left: column_of(frames[0], key).dtype,
                        right: column_of(frames[n - 1], key).dtype,
                    },
                )
            } else {
                None
            },
        }
    }
}

/// What keeps the frames from being merged, if anything does.
pub open spec fn many_error(
    frames: Seq<FrameView>,
    key: Seq<char>,
    check_schema: bool,
) -> Option<MergeError> {
    if frames.len() == 0 {
        Some(MergeError::NoData)
    } else if check_schema && schema_error(frames, frames.len()) is Some {
        schema_error(frames, frames.len())
    } else {
        key_error(frames, key, frames.len())
    }
}

/// `res` is what merging all frames by the column that `key` names gives.
pub open spec fn many_way(
    frames: Seq<FrameView>,
    key: Seq<char>,
    check_schema: bool,
    res: Result<DataFrame, MergeError>,
) -> bool {
    let k = kept(frames);
    match many_error(frames, key, check_schema) {
        Some(e) => res == Err::<DataFrame, MergeError>(e),
        None => if k.len() == 0 {
            res matches Ok(df) && df@ == frames[0]
        } else if k.len() == 1 {
            res matches Ok(df) && df@ == k[0]
        } else if by_number(keys_of(k, key)) {
            exists|order: Seq<u8>|
                {
                    &&& #[trigger] number_order(keys_of(k, key), order)
                    &&& is_frame_merge(res, k, k[0].columns.len(), order)
                }
        } else {
            pairwise(frames[0], frames.drop_first(), key, check_schema, res)
        },
    }
}

/// Frames can be merged at once: their rows can be counted, they are no more than an indicator can
/// tell apart, and the others have the columns of the first one.
pub open spec fn fits_at_once(k: Seq<FrameView>) -> bool {
    &&& total(heights(k)) <= usize::MAX
    &&& k.len() <= 256
    &&& forall|j: int| 0 < j < k.len() ==> covers(k[0], #[trigger] k[j])
}

/// Frames between whose key columns nothing is wrong can be merged, in whichever way they are.
pub open spec fn admitted(frames: Seq<FrameView>, key: Seq<char>, check_schema: bool) -> bool {
    let k = kept(frames);
    k.len() > 1 ==> if by_number(keys_of(k, key)) {
        fits_at_once(k)
    } else {
        foldable(frames[0], frames.drop_first(), key, check_schema)
    }
}

/// Merges the frames at once, if every key column is of this type and has no nulls.
fn try_at_once<P: Numeric>(dfs: &Vec<&DataFrame>, keys: &Vec<&Series>) -> (res: Option<
    Result<DataFrame, MergeError>,
>)
    requires
        dfs@.len() > 0,
        keys@.len() == dfs@.len(),
        forall|k: int|
            0 <= k < dfs@.len() ==> {
                &&& (#[trigger] dfs@[k])@.wf()
                &&& dfs@[k]@.height > 0
                &&& dfs@[k]@.height == keys@[k].spec_len()
            },
        all_of::<P>(plain(keys@)) ==> {
            &&& total(heights(ref_views(dfs@))) <= usize::MAX
            &&& dfs@.len() <= 256
            &&& forall|k: int| 0 <= k < dfs@.len() ==> covers(dfs@[0]@, (#[trigger] dfs@[k])@)
        },
    ensures
        match res {
            Some(r) => {
                &&& all_of::<P>(plain(keys@))
                &&& exists|order: Seq<u8>|
                    {
                        &&& #[trigger] is_many_order(
                            key_values_of::<P>(plain(keys@)),
                            order,
                        )
                        &&& is_frame_merge(
                            r,
                            ref_views(dfs@),
                            dfs@[0]@.columns.len(),
                            order,
                        )
                    }
                &&& r matches Ok(df) ==> df@.wf()
            },
            None => !all_of::<P>(plain(keys@)),
        },
{
    let ghost ks = plain(keys@);
    let mut lists: Vec<Vec<P::K>> = Vec::with_capacity(keys.len());
    let mut k: usize = 0;
    while k < keys.len()
        invariant
            k <= keys@.len(),
            ks == plain(keys@),
            lists@.len() == k,
            forall|j: int|
                0 <= j < k ==> P::values(ks[j].data) == Some((#[trigger] lists@[j])@),
        decreases keys@.len() - k,
    {
        match P::key_values(&keys[k].data) {
            Some(v) => {
                lists.push(v);
            },
            None => {
                proof {
                    assert(P::values(ks[k as int].data) is None);
                }
                return None;
            },
        }
        k += 1;
    }
    proof {
        P::lemma_lawful();
        assert forall|j: int| 0 <= j < ks.len() implies P::values(
            (#[trigger] ks[j]).data,
        ) is Some && lists@[j]@.len() == data_len(ks[j].data) by {
            assert(P::values(ks[j].data) == Some(lists@[j]@));
            P::lemma_len(ks[j].data);
        }
        assert(key_lists(lists@) =~= key_values_of::<P>(ks));
        assert forall|j: int| 0 <= j < dfs@.len() implies (#[trigger] dfs@[j])@.height
            == lists@[j]@.len() by {
            assert(dfs@[j]@.height == keys@[j].spec_len());
            assert(ks[j] == *keys@[j]);
        }
    }
    Some(merge_ordered_frames(dfs, &lists))
}

/// An error among fewer frames is the first one among more.
proof fn lemma_schema_error_stays(frames: Seq<FrameView>, m: nat, n: nat)
    requires
        m <= n,
        schema_error(frames, m) is Some,
    ensures
        schema_error(frames, n) == schema_error(frames, m),
    decreases n,
{
    if m < n {
        lemma_schema_error_stays(frames, m, (n - 1) as nat);
    }
}

/// An error among fewer frames is the first one among more.
proof fn lemma_key_error_stays(frames: Seq<FrameView>, key: Seq<char>, m: nat, n: nat)
    requires
        m <= n,
        key_error(frames, key, m) is Some,
    ensures
        key_error(frames, key, n) == key_error(frames, key, m),
    decreases n,
{
    if m < n {
        lemma_key_error_stays(frames, key, m, (n - 1) as nat);
    }
}

/// The rows of the frames kept are those of all frames.
pub proof fn lemma_kept_total(frames: Seq<FrameView>)
    ensures
        total(heights(kept(frames))) == total(heights(frames)),
    decreases frames.len(),
{
    if frames.len() > 0 {
        let rest = frames.drop_last();
        lemma_kept_total(rest);
        assert(heights(frames).drop_last() =~= heights(rest));
        if frames.last().height > 0 {
            assert(heights(kept(frames)).drop_last() =~= heights(kept(rest)));
        }
    } else {
        assert(heights(kept(frames)) =~= heights(frames));
    }
}

/// Merges all frames by the column that `key` names. Where all keys are numbers without nulls the
/// frames are merged at once, else one after the other.
pub fn _merge_sorted_dfs_many(dfs: &[DataFrame], key: &str, check_schema: bool) -> (res: Result<
    DataFrame,
    MergeError,
>)
    requires
        forall|i: int| 0 <= i < dfs@.len() ==> (#[trigger] dfs@[i])@.wf(),
        many_error(views(dfs@), key@, check_schema) is None ==> admitted(
            views(dfs@),
            key@,
            check_schema,
        ),
    ensures
        many_way(views(dfs@), key@, check_schema, res),
        res matches Ok(df) ==> df@.wf(),
{
    let ghost frames = views(dfs@);
    let ghost n = frames.len();
    if dfs.len() == 0 {
        return Err(MergeError::NoData);
    }
    let first: &DataFrame = &dfs[0];
    if check_schema {
        let mut i: usize = 1;
        while i < dfs.len()
            invariant
                1 <= i <= dfs@.len(),
                frames == views(dfs@),
                n == frames.len(),
                check_schema,
                *first == dfs@[0],
                schema_error(frames, i as nat) is None,
            decreases dfs@.len() - i,
        {
            match first.schema_equal(&dfs[i]) {
                Ok(()) => {},
                Err(e) => {
                    proof {
                        lemma_schema_error_stays(frames, (i + 1) as nat, n);
                    }
                    return Err(e);
                },
            }
            i += 1;
        }
    }
    let first_key: &Series = match first.column(key) {
        Some(s) => s,
        None => {
            proof {
                reveal_with_fuel(key_error, 2);
                lemma_key_error_stays(frames, key@, 1, n);
            }
            return Err(MergeError::ColumnNotFound);
        },
    };
    let mut non_empty: Vec<&DataFrame> = Vec::with_capacity(dfs.len());
    let mut keys: Vec<&Series> = Vec::with_capacity(dfs.len());
    let mut i: usize = 0;
    proof {
        assert(frames.take(0) =~= Seq::<FrameView>::empty());
        assert(ref_views(non_empty@) =~= kept(frames.take(0)));
        assert(plain(keys@) =~= keys_of(kept(frames.take(0)), key@));
    }
    while i < dfs.len()
        invariant
            i <= dfs@.len(),
            frames == views(dfs@),
            n == frames.len(),
            n > 0,
            check_schema ==> schema_error(frames, n) is None,
            forall|i: int| 0 <= i < dfs@.len() ==> (#[trigger] dfs@[i])@.wf(),
            *first_key == column_of(frames[0], key@),
            key_error(frames, key@, i as nat) is None,
            ref_views(non_empty@) == kept(frames.take(i as int)),
            plain(keys@) == keys_of(kept(frames.take(i as int)), key@),
            forall|k: int|
                0 <= k < non_empty@.len() ==> {
                    &&& (#[trigger] non_empty@[k])@.wf()
                    &&& non_empty@[k]@.height > 0
                    &&& keys@[k].spec_len() == non_empty@[k]@.height
                },
        decreases dfs@.len() - i,
    {
        let df: &DataFrame = &dfs[i];
        proof {
            assert(frames[i as int] == df@);
            assert(frames.take(i + 1).drop_last() =~= frames.take(i as int));
            assert(frames.take(i + 1).last() == df@);
            assert(dfs@[i as int]@.wf());
        }
        let key_s: &Series = match df.column(key) {
            Some(s) => s,
            None => {
                proof {
                    lemma_key_error_stays(frames, key@, (i + 1) as nat, n);
                }
                return Err(MergeError::ColumnNotFound);
            },
        };
        if !first_key.has_type_of(key_s) {
            proof {
                lemma_key_error_stays(frames, key@, (i + 1) as nat, n);
            }
            return Err(
                MergeError::DataTypeMismatch {
                    left: first_key.dtype.clone(),
                    right: key_s.dtype.clone(),
                },
            );
        }
        let ghost before = non_empty@;
        let ghost keys_before = keys@;
        proof {
            lemma_key_wf(df@, key@);
        }
        if key_s.len() > 0 {
            non_empty.push(df);
            keys.push(key_s);
            proof {
                assert(ref_views(non_empty@) =~= kept(frames.take(i + 1)));
                assert(plain(keys@) =~= plain(keys_before).push(
                    *key_s,
                ));
                assert(plain(keys@) =~= keys_of(kept(frames.take(i + 1)), key@));
            }
        }
        i += 1;
    }
    let ghost k = kept(frames);
    let ghost ks = keys_of(k, key@);
    proof {
        assert(frames.take(n as int) =~= frames);
        assert(many_error(frames, key@, check_schema) is None);
        assert(ref_views(non_empty@) == k);
        assert(non_empty@.len() == k.len());
        assert(keys@.len() == plain(keys@).len());
        assert forall|j: int| 0 <= j < non_empty@.len() implies k[j] == (
        #[trigger] non_empty@[j])@ by {
            assert(ref_views(non_empty@)[j] == non_empty@[j]@);
        }
        lemma_kept_total(frames);
    }
    if non_empty.len() == 0 {
        return Ok(first.duplicate());
    }
    if non_empty.len() == 1 {
        return Ok(non_empty[0].duplicate());
    }
    proof {
        assert(ks[0] == *keys@[0]);
        assert(plain(keys@) == ks);
        if by_number(ks) {
            assert forall|j: int| 0 <= j < non_empty@.len() implies covers(
                non_empty@[0]@,
                (#[trigger] non_empty@[j])@,
            ) by {
                assert(k[j] == non_empty@[j]@ && k[0] == non_empty@[0]@);
                assert(covers(k[0], k[1]));
                if j == 0 {
                    assert forall|c: int|
                        0 <= c < k[0].columns.len() && refused_column(
                            k[0].columns,
                            c as nat,
                        ) is None implies follows(
                        (#[trigger] k[0].columns[c]).data,
                        k[0].columns[c].data,
                    ) && same_width(k[0].columns[c], k[0].columns[c]) by {
                        lemma_own_width(k[0].columns[c]);
                        assert(non_empty@[0]@.wf());
                        assert(k[0].columns[c].wf());
                        lemma_follows_first(k[0].columns[c].data, k[1].columns[c].data);
                    }
                }
            }
        }
    }
    let at_once: Option<Result<DataFrame, MergeError>> = match &keys[0].data {
        Data::Int(_) => try_at_once::<IntKeys>(&non_empty, &keys),
        Data::UInt(_) => try_at_once::<UIntKeys>(&non_empty, &keys),
        Data::Float(_) => try_at_once::<FloatKeys>(&non_empty, &keys),
        Data::Logical(_) => try_at_once::<LogicalKeys>(&non_empty, &keys),
        Data::Categorical(_, _) => try_at_once::<CodeKeys>(&non_empty, &keys),
        _ => None,
    };
    match at_once {
        Some(merged) => {
            proof {
                assert(exists|order: Seq<u8>|
                    {
                        &&& #[trigger] number_order(ks, order)
                        &&& is_frame_merge(merged, k, k[0].columns.len(), order)
                    }) by {
                    match ks[0].data {
                        Data::Int(_) => {
                            let order = choose|order: Seq<u8>|
                                {
                                    &&& #[trigger] is_many_order(
                                        key_values_of::<IntKeys>(ks),
                                        order,
                                    )
                                    &&& is_frame_merge(merged, k, k[0].columns.len(), order)
                                };
                            assert(number_order(ks, order));
                        },
                        Data::UInt(_) => {
                            let order = choose|order: Seq<u8>|
                                {
                                    &&& #[trigger] is_many_order(
                                        key_values_of::<UIntKeys>(ks),
                                        order,
                                    )
                                    &&& is_frame_merge(merged, k, k[0].columns.len(), order)
                                };
                            assert(number_order(ks, order));
                        },
                        Data::Float(_) => {
                            let order = choose|order: Seq<u8>|
                                {
                                    &&& #[trigger] is_many_order(
                                        key_values_of::<FloatKeys>(ks),
                                        order,
                                    )
                                    &&& is_frame_merge(merged, k, k[0].columns.len(), order)
                                };
                            assert(number_order(ks, order));
                        },
                        Data::Logical(_) => {
                            let order = choose|order: Seq<u8>|
                                {
                                    &&& #[trigger] is_many_order(
                                        key_values_of::<LogicalKeys>(ks),
                                        order,
                                    )
                                    &&& is_frame_merge(merged, k, k[0].columns.len(), order)
                                };
                            assert(number_order(ks, order));
                        },
                        _ => {
                            let order = choose|order: Seq<u8>|
                                {
                                    &&& #[trigger] is_many_order(
                                        key_values_of::<CodeKeys>(ks),
                                        order,
                                    )
                                    &&& is_frame_merge(merged, k, k[0].columns.len(), order)
                                };
                            assert(number_order(ks, order));
                        },
                    }
                }
            }
            merged
        },
        None => merge_sorted_dfs_pairwise(dfs, key, check_schema),
    }
}

} // verus!
