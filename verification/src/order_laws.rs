//! Merging frames one after the other is one merge of all of them, and agrees with merging them at
//! once.
use crate::frame::{
    column_of, common_width, data_len, data_ok, follows, is_column, lemma_column_of,
    lemma_follows_first, same_data, same_type, Data, DataFrame, FrameView, MergeError, Series,
};
use crate::frame_laws::{
    law_key_merged_at_once_is_sorted, law_two_way_merge_is_sorted, lemma_kept_member,
    lemma_next_step, lemma_own_type, lemma_valid_rows_woven, number_sorted,
};
use crate::gather::{
    fields_at, has_null_rows, is_column_merge, merge_of, named, row_counts, sources, storages,
    valid_rows, woven_validity, Binaries, Booleans, Encodings, Floats, Ints, Physical, Strings,
    UInts,
};
use crate::heap::key_order;
use crate::indicator::{key_merge_order, lemma_key_order_uses_up};
use crate::keys::{
    has_no_nan, int_key, key_at_most, key_rank, key_sorted, keys_at, lemma_key_order_by_keys,
    lemma_key_rank, lemma_merged_keys, lemma_weave_map, row_keys, uint_key, Key,
};
use crate::merge::{lens, occurrences, sorted, uses_up, weave};
use crate::merge_frames::{
    columns_at, heights, is_frame_merge, joins, lemma_none_refused, lemma_total_two, refused_column,
    two_way,
};
use crate::merge_laws::{
    law_merge_is_weave, law_merge_prefers_left, law_merge_takes_every_element,
    law_weave_reads_in_order, lemma_occurrences_prefix, lemma_occurrences_step,
};
use crate::merge_many::{lemma_uses_up_len, total};
use crate::merge_many_frames::{
    all_of, by_number, covers, fits_at_once, kept, key_error, key_values_of, keys_of, many_error,
    many_way, number_order, pairwise, CodeKeys, FloatKeys, IntKeys, LogicalKeys, Numeric, UIntKeys,
};
use crate::pairwise_laws::{at_once, lemma_kept_front};
use crate::same_frames::{lemma_merge_of_unique, same_column, same_frame};
use crate::shape::{
    foldable, lemma_foldable_step, lemma_merge_shape, lemma_own_shape, lemma_shape_follows,
    lemma_shape_types, lemma_step, narrowed, same_shape,
};
use vstd::multiset::Multiset;
use vstd::prelude::*;

verus! {

/// The order of a merge of what was merged along `first` with source `m` along `second`.
pub open spec fn compose(first: Seq<u8>, second: Seq<u8>, m: u8) -> Seq<u8> {
    Seq::new(
        second.len(),
        |p: int|
            if second[p] == 0 {
                first[occurrences(second.take(p), 0) as int]
            } else {
                m
            },
    )
}

/// `second` merges what was merged along `first`, of the sources before `m`, with `n` elements.
spec fn composable(first: Seq<u8>, second: Seq<u8>, m: u8, n: nat) -> bool {
    &&& uses_up(seq![first.len(), n], second)
    &&& forall|i: int| 0 <= i < first.len() ==> (#[trigger] first[i]) < m
}

/// How often a composed order names a source.
proof fn lemma_compose_counts(first: Seq<u8>, second: Seq<u8>, m: u8, n: nat, p: int, j: u8)
    requires
        composable(first, second, m, n),
        0 <= p <= second.len(),
        j <= m,
    ensures
        occurrences(second.take(p), 0) <= first.len(),
        occurrences(compose(first, second, m).take(p), j) == if j == m {
            occurrences(second.take(p), 1)
        } else {
            occurrences(first.take(occurrences(second.take(p), 0) as int), j)
        },
    decreases p,
{
    let all = compose(first, second, m);
    let sizes = seq![first.len(), n];
    assert(occurrences(second, 0) == sizes[0]);
    if p == 0 {
        assert(second.take(0) =~= Seq::<u8>::empty());
        assert(all.take(0) =~= Seq::<u8>::empty());
        assert(first.take(0) =~= Seq::<u8>::empty());
        assert(occurrences(Seq::<u8>::empty(), 0) == 0);
    } else {
        lemma_compose_counts(first, second, m, n, p - 1, j);
        lemma_occurrences_step(second, p - 1, 0);
        lemma_occurrences_step(second, p - 1, 1);
        lemma_occurrences_step(all, p - 1, j);
        assert(second[p - 1] < sizes.len());
        if second[p - 1] == 0 {
            let i = occurrences(second.take(p - 1), 0) as int;
            lemma_occurrences_step(first, i, j);
            assert(all[p - 1] == first[i]);
            assert(first[i] < m);
        }
    }
}

/// A composed order uses up all sources.
proof fn lemma_compose_uses_up(sizes: Seq<nat>, first: Seq<u8>, second: Seq<u8>, n: nat)
    requires
        sizes.len() < 256,
        uses_up(sizes, first),
        uses_up(seq![first.len(), n], second),
    ensures
        composable(first, second, sizes.len() as u8, n),
        uses_up(sizes.push(n), compose(first, second, sizes.len() as u8)),
{
    let m = sizes.len() as u8;
    let all = compose(first, second, m);
    let two = seq![first.len(), n];
    assert(composable(first, second, m, n));
    assert(second.take(second.len() as int) =~= second);
    assert(all.take(second.len() as int) =~= all);
    assert(first.take(first.len() as int) =~= first);
    assert(occurrences(second, 0) == two[0]);
    assert(occurrences(second, 1) == two[1]);
    assert forall|j: u8| j < sizes.push(n).len() implies #[trigger] occurrences(all, j)
        == sizes.push(n)[j as int] by {
        lemma_compose_counts(first, second, m, n, second.len() as int, j);
    }
    assert forall|p: int| 0 <= p < all.len() implies (#[trigger] all[p]) < sizes.push(n).len() by {
        assert(second[p] < two.len());
        if second[p] == 0 {
            lemma_occurrences_step(second, p, 0);
            let i = occurrences(second.take(p), 0) as int;
            assert(first[i] < m);
        }
    }
}

/// Weaving what was woven is weaving along the composed order.
proof fn lemma_compose_weave<T>(views: Seq<Seq<T>>, b: Seq<T>, first: Seq<u8>, second: Seq<u8>)
    requires
        views.len() < 256,
        uses_up(lens(views), first),
        uses_up(seq![first.len(), b.len()], second),
    ensures
        weave(seq![weave(views, first), b], second) == weave(
            views.push(b),
            compose(first, second, views.len() as u8),
        ),
{
    let m = views.len() as u8;
    let all = compose(first, second, m);
    let left = weave(seq![weave(views, first), b], second);
    let right = weave(views.push(b), all);
    let two = seq![first.len(), b.len()];
    lemma_compose_uses_up(lens(views), first, second, b.len());
    assert forall|p: int| 0 <= p < second.len() implies left[p] == right[p] by {
        let y = second[p];
        assert(y < two.len());
        lemma_occurrences_step(second, p, y);
        assert(occurrences(second, y) == two[y as int]);
        lemma_compose_counts(first, second, m, b.len(), p, all[p]);
        if y == 0 {
            let i = occurrences(second.take(p), 0) as int;
            assert(first[i] < m);
            assert(first[i] < lens(views).len());
        }
    }
    assert(left =~= right);
}

/// The same of columns of one physical type.
proof fn lemma_compose_woven<P: Physical>(
    out: Data,
    used: Seq<Series>,
    a: Series,
    b: Series,
    first: Seq<u8>,
    second: Seq<u8>,
)
    requires
        0 < used.len() < 256,
        uses_up(row_counts(used), first),
        uses_up(seq![first.len(), data_len(b.data)], second),
        forall|k: int| 0 <= k < used.len() ==> P::cells((#[trigger] used[k]).data) is Some,
        P::cells(b.data) is Some,
        P::cells(a.data) == Some(weave(sources::<P>(used), first)),
        P::cells(out) == Some(weave(sources::<P>(seq![a, b]), second)),
    ensures
        P::cells(out) == Some(
            weave(sources::<P>(used.push(b)), compose(first, second, used.len() as u8)),
        ),
{
    let views = sources::<P>(used);
    assert forall|k: int| 0 <= k < used.len() implies #[trigger] lens(views)[k] == row_counts(
        used,
    )[k] by {
        assert(P::cells(used[k].data) is Some);
        P::lemma_len(used[k].data);
    }
    assert(lens(views) =~= row_counts(used));
    P::lemma_len(b.data);
    lemma_compose_weave(views, P::cells(b.data)->0, first, second);
    assert(sources::<P>(seq![a, b]) =~= seq![weave(views, first), P::cells(b.data)->0]);
    assert(sources::<P>(used.push(b)) =~= views.push(P::cells(b.data)->0));
}

/// What holds of the columns of a merge so far, `a` of `used`, and of the next one, `b`.
spec fn goes_on(used: Seq<Series>, a: Series, b: Series, first: Seq<u8>, second: Seq<u8>) -> bool {
    &&& 0 < used.len() < 256
    &&& forall|k: int| 0 <= k < used.len() ==> (#[trigger] used[k]).wf()
    &&& forall|k: int| 0 <= k < used.len() ==> follows(used[0].data, (#[trigger] used[k]).data)
    &&& follows(used[0].data, b.data)
    &&& b.wf()
    &&& uses_up(row_counts(used), first)
    &&& uses_up(seq![first.len(), data_len(b.data)], second)
    &&& merge_of(a.data, used, first)
}

/// What stores extension columns goes on alike.
proof fn lemma_storages_go_on(
    used: Seq<Series>,
    a: Series,
    b: Series,
    first: Seq<u8>,
    second: Seq<u8>,
)
    requires
        goes_on(used, a, b, first, second),
        used[0].data is Extension,
    ensures
        goes_on(storages(used), storages(seq![a])[0], storages(seq![b])[0], first, second),
        storages(seq![a, b]) == seq![storages(seq![a])[0], storages(seq![b])[0]],
        storages(used.push(b)) == storages(used).push(storages(seq![b])[0]),
        storages(seq![a])[0].dtype == storages(used)[0].dtype,
{
    let st = storages(used);
    assert forall|k: int| 0 <= k < used.len() implies (#[trigger] st[k]).wf() && follows(
        st[0].data,
        st[k].data,
    ) && row_counts(st)[k] == row_counts(used)[k] by {
        assert(used[k].wf());
        assert(follows(used[0].data, used[k].data));
    }
    assert(row_counts(st) =~= row_counts(used));
    assert(storages(seq![a, b]) =~= seq![storages(seq![a])[0], storages(seq![b])[0]]);
    assert(storages(used.push(b)) =~= st.push(storages(seq![b])[0]));
}

/// A merge of what was merged with another column is one merge of all the columns.
proof fn lemma_compose_merge(
    out: Data,
    used: Seq<Series>,
    a: Series,
    b: Series,
    first: Seq<u8>,
    second: Seq<u8>,
)
    requires
        goes_on(used, a, b, first, second),
        merge_of(out, seq![a, b], second),
    ensures
        merge_of(out, used.push(b), compose(first, second, used.len() as u8)),
    decreases out,
{
    let both = seq![a, b];
    let more = used.push(b);
    let all = compose(first, second, used.len() as u8);
    assert(both[0] == a && both[1] == b);
    assert(more[0] == used[0]);
    assert(used[0].wf() && follows(used[0].data, used[0].data));
    assert forall|k: int| 0 <= k < used.len() implies follows(
        used[0].data,
        (#[trigger] used[k]).data,
    ) && used[k].wf() by {
        assert(used[k].wf());
        assert(follows(used[0].data, used[k].data));
    }
    match used[0].data {
        Data::Boolean(_) => {
            lemma_compose_woven::<Booleans>(out, used, a, b, first, second);
        },
        Data::Int(_) => {
            lemma_compose_woven::<Ints>(out, used, a, b, first, second);
        },
        Data::UInt(_) => {
            lemma_compose_woven::<UInts>(out, used, a, b, first, second);
        },
        Data::Float(_) => {
            lemma_compose_woven::<Floats>(out, used, a, b, first, second);
        },
        Data::String(_) => {
            lemma_compose_woven::<Strings>(out, used, a, b, first, second);
        },
        Data::Binary(_) => {
            lemma_compose_woven::<Binaries>(out, used, a, b, first, second);
        },
        Data::Rows(_) => {
            lemma_compose_woven::<Encodings>(out, used, a, b, first, second);
        },
        Data::Logical(_) => {
            lemma_compose_woven::<Ints>(out, used, a, b, first, second);
        },
        Data::Categorical(_, _) => {
            lemma_compose_woven::<UInts>(out, used, a, b, first, second);
        },
        Data::Extension(_) => {
            lemma_storages_go_on(used, a, b, first, second);
            let x = storages(both);
            lemma_compose_merge(out->Extension_0.data, storages(used), x[0], x[1], first, second);
        },
        Data::Struct(base) => {
            let o = out->Struct_0;
            lemma_compose_woven::<Encodings>(out, used, a, b, first, second);
            lemma_compose_validity(o.validity, used, a, b, first, second);
            assert forall|f: int| 0 <= f < o.fields@.len() implies named(
                #[trigger] o.fields@[f],
                fields_at(more, f),
            ) && merge_of(o.fields@[f].data, fields_at(more, f), all) by {
                let x = a.data->Struct_0.fields@[f];
                let y = b.data->Struct_0.fields@[f];
                let uf = fields_at(used, f);
                assert(named(o.fields@[f], fields_at(both, f)));
                assert(fields_at(both, f) =~= seq![x, y]);
                assert(fields_at(more, f) =~= uf.push(y));
                assert(named(x, uf));
                assert(follows(base.fields@[f].data, y.data));
                assert forall|k: int| 0 <= k < uf.len() implies (#[trigger] uf[k]).wf() && follows(
                    uf[0].data,
                    uf[k].data,
                ) && row_counts(uf)[k] == row_counts(used)[k] by {
                    assert(used[k].wf());
                    assert(follows(used[0].data, used[k].data));
                    assert(base.fields@[f] == uf[0]);
                    assert(used[k].data->Struct_0.fields@[f] == uf[k]);
                }
                assert(row_counts(uf) =~= row_counts(used));
                lemma_compose_merge(o.fields@[f].data, uf, x, y, first, second);
            }
        },
        _ => {},
    }
}

/// The validity of a merge of what was merged with another struct column.
proof fn lemma_compose_validity(
    out: Option<Vec<bool>>,
    used: Seq<Series>,
    a: Series,
    b: Series,
    first: Seq<u8>,
    second: Seq<u8>,
)
    requires
        goes_on(used, a, b, first, second),
        used[0].data is Struct,
        a.data is Struct,
        woven_validity(out, seq![a, b], second),
    ensures
        woven_validity(out, used.push(b), compose(first, second, used.len() as u8)),
{
    let both = seq![a, b];
    let more = used.push(b);
    let views = Seq::new(used.len(), |k: int| valid_rows(used[k].data));
    assert forall|k: int| 0 <= k < used.len() implies (#[trigger] used[k]).wf()
        && used[k].data is Struct by {
        assert(used[k].wf());
        assert(follows(used[0].data, used[k].data));
    }
    assert forall|k: int| 0 <= k < used.len() implies #[trigger] lens(views)[k] == row_counts(
        used,
    )[k] by {
        assert(used[k].wf() && used[k].data is Struct);
    }
    assert(lens(views) =~= row_counts(used));
    lemma_valid_rows_woven(a.data, used, first);
    lemma_compose_weave(views, valid_rows(b.data), first, second);
    assert(Seq::new(both.len(), |k: int| valid_rows(both[k].data)) =~= seq![
        weave(views, first),
        valid_rows(b.data),
    ]);
    assert(Seq::new(more.len(), |k: int| valid_rows(more[k].data)) =~= views.push(
        valid_rows(b.data),
    ));
    // A null row of one of the columns is one of the merge, and the other way round.
    if exists|k: int| 0 <= k < both.len() && has_null_rows(#[trigger] both[k].data) {
        let k = choose|k: int| 0 <= k < both.len() && has_null_rows(#[trigger] both[k].data);
        if k == 0 {
            let rows = valid_rows(a.data);
            let p = choose|p: int| 0 <= p < rows.len() && !#[trigger] rows[p];
            let x = first[p];
            assert(x < lens(views).len());
            lemma_occurrences_step(first, p, x);
            assert(occurrences(first, x) == lens(views)[x as int]);
            let i = occurrences(first.take(p), x) as int;
            assert(!valid_rows(used[x as int].data)[i]);
            assert(has_null_rows(more[x as int].data));
        } else {
            assert(more[used.len() as int] == b);
            assert(has_null_rows(more[used.len() as int].data));
        }
    }
    if exists|k: int| 0 <= k < more.len() && has_null_rows(#[trigger] more[k].data) {
        let k = choose|k: int| 0 <= k < more.len() && has_null_rows(#[trigger] more[k].data);
        if k < used.len() {
            let rows = valid_rows(used[k].data);
            let i = choose|i: int| 0 <= i < rows.len() && !#[trigger] rows[i];
            law_weave_reads_in_order(views, first, k as u8, i);
            let p = choose|p: int|
                {
                    &&& 0 <= p < first.len()
                    &&& #[trigger] first[p] == k as u8
                    &&& occurrences(first.take(p), k as u8) == i
                    &&& weave(views, first)[p] == views[k][i]
                };
            assert(!valid_rows(a.data)[p]);
            assert(has_null_rows(both[0].data));
        } else {
            assert(has_null_rows(both[1].data));
        }
    }
}

/// `out` is the frames `used` merged along `order`, which takes every row of each of them.
pub open spec fn merged_along(out: FrameView, used: Seq<FrameView>, order: Seq<u8>) -> bool {
    &&& out.height == total(heights(used))
    &&& uses_up(heights(used), order)
    &&& forall|c: int|
        0 <= c < out.columns.len() ==> is_column_merge(
            #[trigger] out.columns[c],
            columns_at(used, c),
            order,
        )
    &&& forall|k: int|
        0 <= k < used.len() ==> out.columns.len() <= (#[trigger] used[k]).columns.len()
}

/// Rows come out in the order of their sources wherever their keys allow it: a row of a later
/// source goes before a row of an earlier one only where the key of the latter is not at or before
/// its own.
pub open spec fn stable(keys: Seq<Seq<Key>>, order: Seq<u8>) -> bool {
    forall|p: int, q: int|
        0 <= p < q < order.len() && (#[trigger] order[p]) > (#[trigger] order[q]) ==> !key_at_most(
            weave(keys, order)[q],
            weave(keys, order)[p],
        )
}

/// A frame in order that has a sorted key, not of nulls and all numbers or text, in place `c`.
pub open spec fn keyed(frame: FrameView, key: Seq<char>, c: int) -> bool {
    &&& frame.wf()
    &&& is_column(frame, key, c)
    &&& key_sorted(frame.columns[c].data)
    &&& has_no_nan(frame.columns[c].data)
    &&& !(frame.columns[c].data is Null)
}

/// The first `width` columns of all frames can be merged into those of the first one.
spec fn aligned(used: Seq<FrameView>, width: nat) -> bool {
    forall|k: int, d: int|
        0 <= k < used.len() && 0 <= d < width ==> follows(
            used[0].columns[d].data,
            (#[trigger] used[k].columns[d]).data,
        )
}

/// The columns of `out` have the shapes of those of `base`.
spec fn shaped_as(out: FrameView, base: FrameView) -> bool {
    &&& out.columns.len() <= base.columns.len()
    &&& forall|d: int|
        0 <= d < out.columns.len() ==> same_shape(#[trigger] out.columns[d], base.columns[d])
}

/// The columns in one place of frames that can be merged.
proof fn lemma_columns_ready(used: Seq<FrameView>, width: nat, c: int)
    requires
        used.len() > 0,
        0 <= c < width,
        forall|k: int|
            0 <= k < used.len() ==> {
                &&& (#[trigger] used[k]).wf()
                &&& width <= used[k].columns.len()
                &&& follows(used[0].columns[c].data, used[k].columns[c].data)
            },
    ensures
        row_counts(columns_at(used, c)) == heights(used),
        forall|k: int| 0 <= k < used.len() ==> (#[trigger] columns_at(used, c)[k]).wf(),
        forall|k: int|
            0 <= k < used.len() ==> follows(
                columns_at(used, c)[0].data,
                (#[trigger] columns_at(used, c)[k]).data,
            ),
{
    let ss = columns_at(used, c);
    assert forall|k: int| 0 <= k < used.len() implies (#[trigger] ss[k]).wf() && follows(
        ss[0].data,
        ss[k].data,
    ) && row_counts(ss)[k] == heights(used)[k] by {
        assert(used[k].wf());
        assert(used[k].columns[c].wf());
    }
    assert(row_counts(ss) =~= heights(used));
}

/// The next frame is aligned with the frames merged so far, and its key has their type.
proof fn lemma_still_aligned(out: FrameView, used: Seq<FrameView>, r: FrameView, c: int)
    requires
        used.len() > 0,
        used[0].wf(),
        0 <= c < common_width(out, r),
        joins(out, r, out.columns[c]),
        refused_column(out.columns, common_width(out, r)) is None,
        same_type(out.columns[c], r.columns[c]),
        shaped_as(out, used[0]),
        used.len() > 1 ==> aligned(used, out.columns.len()),
    ensures
        same_type(used[0].columns[c], r.columns[c]),
        aligned(used.push(r), common_width(out, r)),
{
    let more = used.push(r);
    let width = common_width(out, r);
    assert(same_shape(out.columns[c], used[0].columns[c]));
    lemma_shape_types(out.columns[c], used[0].columns[c], r.columns[c]);
    assert forall|k: int, d: int| 0 <= k < more.len() && 0 <= d < width implies follows(
        more[0].columns[d].data,
        (#[trigger] more[k].columns[d]).data,
    ) by {
        lemma_none_refused(out.columns, d as nat, width);
        assert(follows(out.columns[d].data, r.columns[d].data));
        assert(same_shape(out.columns[d], used[0].columns[d]));
        lemma_shape_follows(out.columns[d], used[0].columns[d], r.columns[d].data);
        assert(used[0].columns[d].wf());
        lemma_follows_first(used[0].columns[d].data, r.columns[d].data);
        if k < used.len() && used.len() > 1 {
            assert(follows(used[0].columns[d].data, used[k].columns[d].data));
        }
    }
}

/// Two key columns of one type merge stably.
proof fn lemma_two_stable(l: Series, s: Series)
    requires
        same_type(l, s),
        key_merge_order(l.data, s.data) is Some,
        key_sorted(l.data),
        key_sorted(s.data),
        !(l.data is Null),
    ensures
        stable(
            seq![row_keys(l.data), row_keys(s.data)],
            key_merge_order(l.data, s.data)->0,
        ),
{
    let a = row_keys(l.data);
    let b = row_keys(s.data);
    let order = key_merge_order(l.data, s.data)->0;
    let w = weave(seq![a, b], order);
    lemma_key_order_by_keys(l, s);
    lemma_key_rank(false);
    law_merge_is_weave(a, b, key_rank());
    law_merge_takes_every_element(a, b, key_rank());
    assert forall|p: int, q: int|
        0 <= p < q < order.len() && (#[trigger] order[p]) > (
        #[trigger] order[q]) implies !key_at_most(w[q], w[p]) by {
        assert(order[p] < 2 && order[q] < 2);
        law_merge_prefers_left(a, b, key_rank(), p, q);
    }
}

/// Two rows of a stable merge with one more source after a stable merge.
proof fn lemma_compose_pair(
    a: Seq<Key>,
    views: Seq<Seq<Key>>,
    b: Seq<Key>,
    first: Seq<u8>,
    second: Seq<u8>,
    m: u8,
    p: int,
    q: int,
)
    requires
        a == weave(views, first),
        composable(first, second, m, b.len()),
        stable(views, first),
        stable(seq![a, b], second),
        0 <= p < q < second.len(),
        compose(first, second, m)[p] > compose(first, second, m)[q],
    ensures
        !key_at_most(weave(seq![a, b], second)[q], weave(seq![a, b], second)[p]),
{
    let w = weave(seq![a, b], second);
    let two = seq![first.len(), b.len()];
    assert(second[p] < two.len() && second[q] < two.len());
    lemma_compose_place(first, second, m, b.len(), p);
    lemma_compose_place(first, second, m, b.len(), q);
    if second[p] == 0 {
        let i = occurrences(second.take(p), 0) as int;
        let j = occurrences(second.take(q), 0) as int;
        assert(second[q] == 0);
        lemma_occurrences_step(second, p, 0);
        lemma_occurrences_prefix(second, p + 1, q, 0);
        assert(first[i] > first[j]);
        assert(w[p] == a[i]);
        assert(w[q] == a[j]);
    } else {
        assert(second[p] > second[q]);
    }
}

/// A stable merge with one more source after a stable merge is stable.
proof fn lemma_compose_stable(
    views: Seq<Seq<Key>>,
    b: Seq<Key>,
    first: Seq<u8>,
    second: Seq<u8>,
)
    requires
        views.len() < 256,
        uses_up(lens(views), first),
        uses_up(seq![first.len(), b.len()], second),
        stable(views, first),
        stable(seq![weave(views, first), b], second),
    ensures
        stable(views.push(b), compose(first, second, views.len() as u8)),
{
    let m = views.len() as u8;
    let order = compose(first, second, m);
    let a = weave(views, first);
    let w = weave(views.push(b), order);
    assert(composable(first, second, m, b.len())) by {
        lemma_compose_uses_up(lens(views), first, second, b.len());
    }
    lemma_compose_weave(views, b, first, second);
    assert forall|p: int, q: int|
        0 <= p < q < order.len() && (#[trigger] order[p]) > (
        #[trigger] order[q]) implies !key_at_most(w[q], w[p]) by {
        lemma_compose_pair(a, views, b, first, second, m, p, q);
    }
}

/// A frame merged after others were is one merge of all of them.
proof fn lemma_compose_along(
    out: FrameView,
    used: Seq<FrameView>,
    first: Seq<u8>,
    r: FrameView,
    second: Seq<u8>,
    next: DataFrame,
)
    requires
        1 < used.len() < 256,
        forall|k: int| 0 <= k < used.len() ==> (#[trigger] used[k]).wf(),
        r.wf(),
        merged_along(out, used, first),
        aligned(used, out.columns.len()),
        aligned(used.push(r), common_width(out, r)),
        refused_column(out.columns, common_width(out, r)) is None,
        is_frame_merge(
            Ok::<DataFrame, MergeError>(next),
            seq![out, r],
            common_width(out, r),
            second,
        ),
        uses_up(seq![out.height, r.height], second),
    ensures
        merged_along(next@, used.push(r), compose(first, second, used.len() as u8)),
{
    let more = used.push(r);
    let width = common_width(out, r);
    let pair = seq![out, r];
    let order = compose(first, second, used.len() as u8);
    lemma_total_two(out, r);
    lemma_uses_up_len(heights(used), first);
    assert(heights(more) =~= heights(used).push(r.height));
    assert(heights(more).drop_last() =~= heights(used));
    lemma_compose_uses_up(heights(used), first, second, r.height);
    assert forall|d: int| 0 <= d < width implies is_column_merge(
        #[trigger] next@.columns[d],
        columns_at(more, d),
        order,
    ) by {
        let ss = columns_at(used, d);
        lemma_aligned_at(used, out.columns.len(), d);
        lemma_columns_ready(used, out.columns.len(), d);
        assert(is_column_merge(out.columns[d], ss, first));
        assert(is_column_merge(next@.columns[d], columns_at(pair, d), second));
        assert(columns_at(pair, d) =~= seq![out.columns[d], r.columns[d]]);
        assert(r.columns[d].wf());
        assert(more[used.len() as int] == r);
        assert(follows(more[0].columns[d].data, more[used.len() as int].columns[d].data));
        assert(goes_on(ss, out.columns[d], r.columns[d], first, second));
        lemma_compose_merge(
            next@.columns[d].data,
            ss,
            out.columns[d],
            r.columns[d],
            first,
            second,
        );
        assert(columns_at(more, d) =~= ss.push(r.columns[d]));
    }
    assert forall|k: int| 0 <= k < more.len() implies next@.columns.len() <= (
    #[trigger] more[k]).columns.len() by {
        if k < used.len() {
            assert(out.columns.len() <= used[k].columns.len());
        }
    }
}

/// The keys of what was merged are the keys of its frames, woven.
proof fn lemma_keys_so_far(out: FrameView, used: Seq<FrameView>, first: Seq<u8>, c: int)
    requires
        used.len() > 0,
        0 <= c < out.columns.len(),
        forall|k: int|
            0 <= k < used.len() ==> {
                &&& (#[trigger] used[k]).wf()
                &&& same_type(used[0].columns[c], used[k].columns[c])
            },
        merged_along(out, used, first),
        aligned(used, out.columns.len()),
        !(used[0].columns[c].data is Null),
        !(used[0].columns[c].data is Extension),
        !(used[0].columns[c].data is Opaque),
        !(used[0].columns[c].data is BinaryOffset),
    ensures
        row_keys(out.columns[c].data) == weave(keys_at(columns_at(used, c)), first),
        lens(keys_at(columns_at(used, c))) == heights(used),
{
    let ss = columns_at(used, c);
    lemma_aligned_at(used, out.columns.len(), c);
    lemma_columns_ready(used, out.columns.len(), c);
    assert forall|k: int| 0 <= k < used.len() implies same_type(ss[0], #[trigger] ss[k]) by {
        assert(same_type(used[0].columns[c], used[k].columns[c]));
    }
    assert(is_column_merge(out.columns[c], ss, first));
    lemma_merged_keys(out.columns[c].data, ss, first);
    lemma_key_lens(used, out.columns.len(), c);
}

/// `second` merges key columns `l` and `s` stably.
spec fn ordered(l: Series, s: Series, second: Seq<u8>) -> bool {
    &&& uses_up(seq![data_len(l.data), data_len(s.data)], second)
    &&& stable(seq![row_keys(l.data), row_keys(s.data)], second)
    &&& row_keys(s.data).len() == data_len(s.data)
    &&& !(l.data is Extension)
    &&& !(l.data is Opaque)
}

/// Sorted key columns of one type are merged stably.
proof fn lemma_ordered(l: Series, s: Series)
    requires
        l.wf(),
        s.wf(),
        same_type(l, s),
        key_merge_order(l.data, s.data) is Some,
        key_sorted(l.data),
        key_sorted(s.data),
        !(l.data is Null),
    ensures
        ordered(l, s, key_merge_order(l.data, s.data)->0),
{
    lemma_key_order_uses_up(l.data, s.data);
    lemma_two_stable(l, s);
    lemma_row_keys_len(s.data);
}

/// What a merge of two frames that have rows is.
proof fn lemma_pair(
    out: FrameView,
    r: FrameView,
    key: Seq<char>,
    c: int,
    check_schema: bool,
    next: DataFrame,
) -> (second: Seq<u8>)
    requires
        keyed(out, key, c),
        keyed(r, key, c),
        out.height > 0,
        r.height > 0,
        joins(out, r, out.columns[c]),
        two_way(
            out,
            r,
            out.columns[c],
            r.columns[c],
            check_schema,
            Ok::<DataFrame, MergeError>(next),
        ),
    ensures
        0 <= c < common_width(out, r),
        same_type(out.columns[c], r.columns[c]),
        refused_column(out.columns, common_width(out, r)) is None,
        is_frame_merge(
            Ok::<DataFrame, MergeError>(next),
            seq![out, r],
            common_width(out, r),
            second,
        ),
        ordered(out.columns[c], r.columns[c], second),
        !(out.columns[c].data is BinaryOffset),
{
    let l = out.columns[c];
    let s = r.columns[c];
    lemma_column_of(out, key, c);
    lemma_column_of(r, key, c);
    assert(l.wf() && s.wf());
    lemma_step(out, r, key, check_schema, next);
    lemma_ordered(l, s);
    lemma_none_refused(out.columns, (c + 1) as nat, common_width(out, r));
    key_merge_order(l.data, s.data)->0
}

/// Two frames are merged stably.
proof fn lemma_first_two(
    out: FrameView,
    r: FrameView,
    c: int,
    second: Seq<u8>,
    next: DataFrame,
)
    requires
        0 <= c < common_width(out, r),
        refused_column(out.columns, common_width(out, r)) is None,
        is_frame_merge(
            Ok::<DataFrame, MergeError>(next),
            seq![out, r],
            common_width(out, r),
            second,
        ),
        out.wf(),
        r.wf(),
        ordered(out.columns[c], r.columns[c], second),
    ensures
        merged_along(next@, seq![out, r], second),
        stable(keys_at(columns_at(seq![out, r], c)), second),
{
    let pair = seq![out, r];
    assert(out.columns[c].wf() && r.columns[c].wf());
    assert(heights(pair) =~= seq![out.height, r.height]);
    assert(keys_at(columns_at(pair, c)) =~= seq![
        row_keys(out.columns[c].data),
        row_keys(r.columns[c].data),
    ]);
}

/// One more frame is merged stably after others were.
proof fn lemma_one_after(
    out: FrameView,
    used: Seq<FrameView>,
    first: Seq<u8>,
    r: FrameView,
    c: int,
    second: Seq<u8>,
)
    requires
        1 < used.len() < 256,
        forall|k: int|
            0 <= k < used.len() ==> {
                &&& (#[trigger] used[k]).wf()
                &&& same_type(used[0].columns[c], used[k].columns[c])
            },
        0 <= c < common_width(out, r),
        merged_along(out, used, first),
        aligned(used, out.columns.len()),
        shaped_as(out, used[0]),
        !(out.columns[c].data is Null),
        !(out.columns[c].data is BinaryOffset),
        stable(keys_at(columns_at(used, c)), first),
        out.wf(),
        r.wf(),
        ordered(out.columns[c], r.columns[c], second),
    ensures
        stable(
            keys_at(columns_at(used.push(r), c)),
            compose(first, second, used.len() as u8),
        ),
{
    let views = keys_at(columns_at(used, c));
    let b = row_keys(r.columns[c].data);
    assert(out.columns[c].wf() && r.columns[c].wf());
    assert(same_shape(out.columns[c], used[0].columns[c]));
    lemma_keys_so_far(out, used, first, c);
    lemma_uses_up_len(heights(used), first);
    lemma_compose_stable(views, b, first, second);
    assert(keys_at(columns_at(used.push(r), c)) =~= views.push(b));
}

/// One step: merging what was merged of `used` with the next frame is one stable merge of all of
/// them.
proof fn lemma_one_more(
    out: FrameView,
    used: Seq<FrameView>,
    first: Seq<u8>,
    r: FrameView,
    key: Seq<char>,
    c: int,
    check_schema: bool,
    next: DataFrame,
) -> (order: Seq<u8>)
    requires
        keyed(out, key, c),
        keyed(r, key, c),
        out.height > 0,
        r.height > 0,
        joins(out, r, out.columns[c]),
        0 < used.len() < 256,
        forall|k: int|
            0 <= k < used.len() ==> {
                &&& (#[trigger] used[k]).wf()
                &&& is_column(used[k], key, c)
                &&& !(used[k].columns[c].data is Null)
                &&& same_type(used[0].columns[c], used[k].columns[c])
            },
        used.len() == 1 ==> out == used[0],
        used.len() > 1 ==> aligned(used, out.columns.len()) && shaped_as(out, used[0]),
        used.len() > 1 ==> merged_along(out, used, first) && stable(
            keys_at(columns_at(used, c)),
            first,
        ),
        two_way(
            out,
            r,
            out.columns[c],
            r.columns[c],
            check_schema,
            Ok::<DataFrame, MergeError>(next),
        ),
    ensures
        merged_along(next@, used.push(r), order),
        stable(keys_at(columns_at(used.push(r), c)), order),
        next@.columns.len() == common_width(out, r),
        same_type(used[0].columns[c], r.columns[c]),
        aligned(used.push(r), next@.columns.len()),
        shaped_as(next@, used[0]),
{
    let more = used.push(r);
    let second = lemma_pair(out, r, key, c, check_schema, next);
    if used.len() == 1 {
        lemma_own_shapes(out);
    }
    lemma_still_aligned(out, used, r, c);
    let order = if used.len() == 1 {
        assert(more =~= seq![out, r]);
        lemma_first_two(out, r, c, second, next);
        second
    } else {
        assert(out.columns[c].wf() && r.columns[c].wf());
        lemma_compose_along(out, used, first, r, second, next);
        lemma_one_after(out, used, first, r, c, second);
        compose(first, second, used.len() as u8)
    };
    assert(more[0] == used[0]);
    lemma_merged_shapes(next@, more, order);
    order
}

/// Which source a composed order names.
proof fn lemma_compose_place(first: Seq<u8>, second: Seq<u8>, m: u8, n: nat, p: int)
    requires
        composable(first, second, m, n),
        0 <= p < second.len(),
    ensures
        second[p] == 0 ==> {
            let i = occurrences(second.take(p), 0) as int;
            &&& i < first.len()
            &&& compose(first, second, m)[p] == first[i]
            &&& first[i] < m
        },
        second[p] == 1 ==> compose(first, second, m)[p] == m,
{
    let sizes = seq![first.len(), n];
    lemma_occurrences_step(second, p, 0);
    assert(occurrences(second, 0) == sizes[0]);
    if second[p] == 0 {
        let i = occurrences(second.take(p), 0) as int;
        assert(first[i] < m);
    }
}

/// Every frame has its own shapes.
proof fn lemma_own_shapes(a: FrameView)
    ensures
        shaped_as(a, a),
{
    assert forall|d: int| 0 <= d < a.columns.len() implies same_shape(
        #[trigger] a.columns[d],
        a.columns[d],
    ) by {
        lemma_own_shape(a.columns[d]);
    }
}

/// A merge has the shapes of the first of its frames.
proof fn lemma_merged_shapes(out: FrameView, used: Seq<FrameView>, order: Seq<u8>)
    requires
        used.len() > 0,
        used[0].wf(),
        merged_along(out, used, order),
    ensures
        shaped_as(out, used[0]),
{
    assert(out.columns.len() <= used[0].columns.len());
    assert forall|d: int| 0 <= d < out.columns.len() implies same_shape(
        #[trigger] out.columns[d],
        used[0].columns[d],
    ) by {
        let ss = columns_at(used, d);
        assert(is_column_merge(out.columns[d], ss, order));
        assert(ss[0] == used[0].columns[d]);
        assert(ss[0].wf());
        lemma_merge_shape(out.columns[d], ss, order);
    }
}

/// The columns in one place of aligned frames.
proof fn lemma_aligned_at(used: Seq<FrameView>, width: nat, c: int)
    requires
        aligned(used, width),
        0 <= c < width,
    ensures
        forall|k: int|
            0 <= k < used.len() ==> follows(
                used[0].columns[c].data,
                (#[trigger] used[k]).columns[c].data,
            ),
{
    assert forall|k: int| 0 <= k < used.len() implies follows(
        used[0].columns[c].data,
        (#[trigger] used[k]).columns[c].data,
    ) by {
        assert(follows(used[0].columns[c].data, used[k].columns[c].data));
    }
}

/// A key column that can be merged by has a key per row.
proof fn lemma_row_keys_len(d: Data)
    requires
        data_ok(d),
        !(d is Extension),
        !(d is Opaque),
    ensures
        row_keys(d).len() == data_len(d),
{
    reveal_with_fuel(data_len, 2);
}

/// The key columns of the frames have a key per row.
proof fn lemma_key_lens(used: Seq<FrameView>, width: nat, c: int)
    requires
        used.len() > 0,
        0 <= c < width,
        forall|k: int|
            0 <= k < used.len() ==> {
                &&& (#[trigger] used[k]).wf()
                &&& width <= used[k].columns.len()
                &&& follows(used[0].columns[c].data, used[k].columns[c].data)
            },
        !(used[0].columns[c].data is Null),
        !(used[0].columns[c].data is Extension),
        !(used[0].columns[c].data is Opaque),
        !(used[0].columns[c].data is BinaryOffset),
    ensures
        lens(keys_at(columns_at(used, c))) == heights(used),
{
    let views = keys_at(columns_at(used, c));
    assert forall|k: int| 0 <= k < used.len() implies #[trigger] lens(views)[k] == heights(
        used,
    )[k] by {
        assert(used[k].wf());
        assert(used[k].columns[c].wf());
        assert(follows(used[0].columns[c].data, used[k].columns[c].data));
        lemma_row_keys_len(used[k].columns[c].data);
    }
    assert(lens(views) =~= heights(used));
}

/// `out` is what was merged of `used`, frames that have rows, along `first`.
#[verifier::opaque]
spec fn merged_so_far(
    out: FrameView,
    used: Seq<FrameView>,
    first: Seq<u8>,
    key: Seq<char>,
    c: int,
) -> bool {
    &&& used.len() == 0 ==> out.height == 0
    &&& used.len() > 0 ==> out.height > 0
    &&& used.len() == 1 ==> out == used[0]
    &&& used.len() > 1 ==> merged_along(out, used, first) && stable(
        keys_at(columns_at(used, c)),
        first,
    )
    &&& forall|k: int|
        0 <= k < used.len() ==> {
            &&& (#[trigger] used[k]).wf()
            &&& is_column(used[k], key, c)
            &&& !(used[k].columns[c].data is Null)
            &&& same_type(used[0].columns[c], used[k].columns[c])
        }
    &&& used.len() > 1 ==> aligned(used, out.columns.len()) && shaped_as(out, used[0])
}

/// One step of the fold: the frames that were used, and the order of their merge.
proof fn lemma_fold_step(
    out: FrameView,
    used: Seq<FrameView>,
    first: Seq<u8>,
    r: FrameView,
    key: Seq<char>,
    c: int,
    check_schema: bool,
    next: DataFrame,
) -> (order: Seq<u8>)
    requires
        keyed(out, key, c),
        keyed(r, key, c),
        out.height > 0 && r.height > 0 ==> joins(out, r, out.columns[c]),
        r.height > 0 ==> used.len() < 256,
        merged_so_far(out, used, first, key, c),
        two_way(
            out,
            r,
            out.columns[c],
            r.columns[c],
            check_schema,
            Ok::<DataFrame, MergeError>(next),
        ),
    ensures
        merged_so_far(
            next@,
            if r.height == 0 {
                used
            } else {
                used.push(r)
            },
            order,
            key,
            c,
        ),
        keyed(next@, key, c),
        r.columns.len() == out.columns.len() ==> next@.columns.len() == out.columns.len(),
{
    reveal(merged_so_far);
    lemma_column_of(out, key, c);
    lemma_column_of(r, key, c);
    lemma_step(out, r, key, check_schema, next);
    law_two_way_merge_is_sorted(out, r, key, c, check_schema, next);
    assert(!(next@.columns[c].data is Null)) by {
        if out.height > 0 && r.height > 0 {
            let like = narrowed(out, common_width(out, r), next@.height);
            assert(next@.columns[c].name == like.columns[c].name);
            assert(same_shape(next@.columns[c], like.columns[c]));
        }
    }
    if r.height == 0 {
        first
    } else if used.len() == 0 {
        lemma_own_type(r.columns[c]);
        assert(used.push(r) =~= seq![r]);
        first
    } else {
        let now = used.push(r);
        let order = lemma_one_more(out, used, first, r, key, c, check_schema, next);
        assert forall|k: int| 0 <= k < now.len() implies {
            &&& (#[trigger] now[k]).wf()
            &&& is_column(now[k], key, c)
            &&& !(now[k].columns[c].data is Null)
            &&& same_type(now[0].columns[c], now[k].columns[c])
        } by {
            if k < used.len() {
                assert(used[k].wf());
            }
        }
        order
    }
}

/// Merging one frame after the other is one stable merge of those that have rows.
proof fn lemma_fold(
    out: FrameView,
    used: Seq<FrameView>,
    first: Seq<u8>,
    rest: Seq<FrameView>,
    key: Seq<char>,
    c: int,
    check_schema: bool,
    df: DataFrame,
) -> (order: Seq<u8>)
    requires
        keyed(out, key, c),
        forall|i: int| 0 <= i < rest.len() ==> keyed(#[trigger] rest[i], key, c),
        foldable(out, rest, key, check_schema),
        used.len() + kept(rest).len() <= 256,
        merged_so_far(out, used, first, key, c),
        pairwise(out, rest, key, check_schema, Ok::<DataFrame, MergeError>(df)),
    ensures
        (used + kept(rest)).len() > 1 ==> merged_along(df@, used + kept(rest), order) && stable(
            keys_at(columns_at(used + kept(rest), c)),
            order,
        ),
        is_column(df@, key, c),
        key_sorted(df@.columns[c].data),
        (forall|i: int|
            0 <= i < rest.len() ==> (#[trigger] rest[i]).columns.len() == out.columns.len())
            ==> df@.columns.len() == out.columns.len(),
    decreases rest.len(),
{
    if rest.len() == 0 {
        reveal(merged_so_far);
        assert(used + kept(rest) =~= used);
        first
    } else {
        let r = rest[0];
        let tail = rest.drop_first();
        lemma_kept_front(rest);
        lemma_column_of(out, key, c);
        lemma_column_of(r, key, c);
        assert(keyed(r, key, c));
        let next = lemma_next_step(out, rest, key, check_schema, df);
        lemma_foldable_step(out, rest, key, check_schema, next);
        let so_far = lemma_fold_step(out, used, first, r, key, c, check_schema, next);
        let now = if r.height == 0 {
            used
        } else {
            used.push(r)
        };
        assert(used + kept(rest) =~= now + kept(tail));
        assert forall|i: int| 0 <= i < tail.len() implies keyed(#[trigger] tail[i], key, c) by {
            assert(tail[i] == rest[i + 1]);
        }
        let order = lemma_fold(next@, now, so_far, tail, key, c, check_schema, df);
        if forall|i: int|
            0 <= i < rest.len() ==> (#[trigger] rest[i]).columns.len() == out.columns.len() {
            assert(rest[0].columns.len() == out.columns.len());
            assert forall|i: int| 0 <= i < tail.len() implies (#[trigger] tail[i]).columns.len()
                == next@.columns.len() by {
                assert(tail[i] == rest[i + 1]);
            }
        }
        order
    }
}

/// Merging frames that are sorted by key one after the other is one merge of those that have rows,
/// in which equal keys come out in the order of their frames.
pub proof fn law_pairwise_is_one_stable_merge(
    frames: Seq<FrameView>,
    key: Seq<char>,
    c: int,
    check_schema: bool,
    df: DataFrame,
)
    requires
        frames.len() > 0,
        forall|i: int| 0 <= i < frames.len() ==> keyed(#[trigger] frames[i], key, c),
        foldable(frames[0], frames.drop_first(), key, check_schema),
        1 < kept(frames).len() <= 256,
        pairwise(
            frames[0],
            frames.drop_first(),
            key,
            check_schema,
            Ok::<DataFrame, MergeError>(df),
        ),
    ensures
        exists|order: Seq<u8>|
            {
                &&& #[trigger] merged_along(df@, kept(frames), order)
                &&& stable(keys_at(columns_at(kept(frames), c)), order)
            },
        is_column(df@, key, c),
        key_sorted(df@.columns[c].data),
        (forall|i: int|
            0 <= i < frames.len() ==> (#[trigger] frames[i]).columns.len()
                == frames[0].columns.len()) ==> df@.columns.len() == frames[0].columns.len(),
{
    let rest = frames.drop_first();
    lemma_kept_front(frames);
    assert(keyed(frames[0], key, c));
    assert forall|i: int| 0 <= i < rest.len() implies keyed(#[trigger] rest[i], key, c) by {
        assert(rest[i] == frames[i + 1]);
    }
    if forall|i: int|
        0 <= i < frames.len() ==> (#[trigger] frames[i]).columns.len() == frames[0].columns.len() {
        assert forall|i: int| 0 <= i < rest.len() implies (#[trigger] rest[i]).columns.len()
            == frames[0].columns.len() by {
            assert(rest[i] == frames[i + 1]);
        }
    }
    let used = if frames[0].height > 0 {
        seq![frames[0]]
    } else {
        Seq::empty()
    };
    assert(kept(frames) =~= used + kept(rest));
    lemma_own_type(frames[0].columns[c]);
    assert(merged_so_far(frames[0], used, Seq::empty(), key, c)) by {
        reveal(merged_so_far);
    }
    let order = lemma_fold(
        frames[0],
        used,
        Seq::empty(),
        rest,
        key,
        c,
        check_schema,
        df,
    );
    assert(merged_along(df@, kept(frames), order));
}

/// The elements of all sources together.
spec fn together<T>(views: Seq<Seq<T>>) -> Multiset<T>
    decreases views.len(),
{
    if views.len() == 0 {
        Multiset::empty()
    } else {
        together(views.drop_last()).add(views.last().to_multiset())
    }
}

/// One more element of one source is one more of all together.
proof fn lemma_together_push<T>(views: Seq<Seq<T>>, j: int, s: Seq<T>, x: T)
    requires
        0 <= j < views.len(),
    ensures
        together(views.update(j, s.push(x))) == together(views.update(j, s)).insert(x),
    decreases views.len(),
{
    broadcast use vstd::seq_lib::group_to_multiset_ensures;

    let a = views.update(j, s.push(x));
    let b = views.update(j, s);
    if j == views.len() - 1 {
        assert(a.drop_last() =~= b.drop_last());
    } else {
        let short = views.drop_last();
        assert(a.drop_last() =~= short.update(j, s.push(x)));
        assert(b.drop_last() =~= short.update(j, s));
        lemma_together_push(short, j, s, x);
    }
    assert(together(a) =~= together(b).insert(x));
}

/// Sources without elements hold nothing together.
proof fn lemma_together_empty<T>(views: Seq<Seq<T>>)
    requires
        forall|k: int| 0 <= k < views.len() ==> (#[trigger] views[k]).len() == 0,
    ensures
        together(views) == Multiset::<T>::empty(),
    decreases views.len(),
{
    broadcast use vstd::seq_lib::group_to_multiset_ensures;

    if views.len() > 0 {
        lemma_together_empty(views.drop_last());
        assert(views.last() =~= Seq::<T>::empty());
        assert(together(views) =~= Multiset::<T>::empty());
    }
}

/// Along whichever order all sources are read, the same elements come out.
proof fn lemma_weave_elements<T>(views: Seq<Seq<T>>, order: Seq<u8>)
    requires
        views.len() <= 256,
        uses_up(lens(views), order),
    ensures
        weave(views, order).to_multiset() == together(views),
    decreases order.len(),
{
    broadcast use vstd::seq_lib::group_to_multiset_ensures;

    if order.len() == 0 {
        assert forall|k: int| 0 <= k < views.len() implies (#[trigger] views[k]).len() == 0 by {
            assert(occurrences(order, k as u8) == lens(views)[k]);
        }
        lemma_together_empty(views);
        assert(weave(views, order) =~= Seq::<T>::empty());
    } else {
        let j = order.last();
        let short = order.drop_last();
        assert(order[order.len() - 1] == j);
        assert(j < lens(views).len());
        assert(occurrences(order, j) == lens(views)[j as int]);
        let s = views[j as int].drop_last();
        let x = views[j as int].last();
        let fewer = views.update(j as int, s);
        assert forall|k: u8| k < lens(fewer).len() implies #[trigger] occurrences(short, k)
            == lens(fewer)[k as int] by {
            assert(occurrences(order, k) == lens(views)[k as int]);
        }
        assert forall|p: int| 0 <= p < short.len() implies (#[trigger] short[p]) < lens(
            fewer,
        ).len() by {
            assert(short[p] == order[p]);
            assert(order[p] < lens(views).len());
        }
        lemma_weave_elements(fewer, short);
        let w = weave(views, order);
        let v = weave(fewer, short);
        assert forall|p: int| 0 <= p < short.len() implies w[p] == v[p] by {
            let y = order[p];
            assert(short[p] == y);
            assert(order.take(p) =~= short.take(p));
            lemma_occurrences_step(short, p, y);
            assert(y < lens(fewer).len());
            assert(occurrences(short, y) == lens(fewer)[y as int]);
        }
        assert(order.take(short.len() as int) =~= short);
        assert(w =~= v.push(x));
        lemma_together_push(views, j as int, s, x);
        assert(s.push(x) =~= views[j as int]);
        assert(views.update(j as int, s.push(x)) =~= views);
    }
}

/// A column of integers, or of what is stored as signed integers.
pub open spec fn is_integral(d: Data) -> bool {
    d is Int || d is UInt || d is Logical
}

/// A column of integers without nulls.
spec fn integral_values(d: Data) -> bool {
    match d {
        Data::Int(_) => IntKeys::values(d) is Some,
        Data::UInt(_) => UIntKeys::values(d) is Some,
        Data::Logical(_) => LogicalKeys::values(d) is Some,
        _ => false,
    }
}

/// The number of a key.
spec fn number() -> spec_fn(Key) -> int {
    |x: Key| x->Number_0
}

/// The keys of integers without nulls are numbers, and sorted as the integers are.
proof fn lemma_integral_keys(d: Data)
    requires
        integral_values(d),
    ensures
        forall|i: int| 0 <= i < row_keys(d).len() ==> (#[trigger] row_keys(d)[i]) is Number,
        key_sorted(d) <==> number_sorted(d),
{
    let keys = row_keys(d);
    match d {
        Data::Int(_) => {
            lemma_sorted_numbers(keys, IntKeys::values(d)->0, key_order(), |x: i128| x as int);
        },
        Data::UInt(_) => {
            lemma_sorted_numbers(keys, UIntKeys::values(d)->0, key_order(), |x: u128| x as int);
        },
        Data::Logical(s) => {
            lemma_sorted_numbers(keys, LogicalKeys::values(d)->0, key_order(), |x: i128| x as int);
        },
        _ => {},
    }
}

proof fn lemma_sorted_numbers<K>(
    keys: Seq<Key>,
    values: Seq<K>,
    le: spec_fn(K, K) -> bool,
    f: spec_fn(K) -> int,
)
    requires
        keys.len() == values.len(),
        forall|i: int| 0 <= i < keys.len() ==> #[trigger] keys[i] == Key::Number(f(values[i])),
        forall|x: K, y: K| #[trigger] le(x, y) == (f(x) <= f(y)),
    ensures
        sorted(keys, key_rank()) <==> sorted(values, le),
{
    if sorted(keys, key_rank()) {
        assert forall|i: int, j: int| 0 <= i < j < values.len() implies le(
            #[trigger] values[i],
            #[trigger] values[j],
        ) by {
            assert(key_rank()(keys[i], keys[j]));
        }
    }
    if sorted(values, le) {
        assert forall|i: int, j: int| 0 <= i < j < keys.len() implies key_rank()(
            #[trigger] keys[i],
            #[trigger] keys[j],
        ) by {
            assert(le(values[i], values[j]));
        }
    }
}

/// Two columns of integers of one kind with the same keys hold the same.
proof fn lemma_integral_same(a: Data, b: Data, ss: Seq<Series>, o1: Seq<u8>, o2: Seq<u8>)
    requires
        ss.len() > 0,
        is_integral(ss[0].data),
        ss[0].wf(),
        merge_of(a, ss, o1),
        merge_of(b, ss, o2),
        row_keys(a) == row_keys(b),
    ensures
        same_data(a, b),
{
    reveal_with_fuel(merge_of, 2);
    reveal_with_fuel(same_data, 2);
    match ss[0].data {
        Data::Int(_) => {
            lemma_same_ints(a->Int_0@, b->Int_0@);
        },
        Data::UInt(_) => {
            lemma_same_uints(a->UInt_0@, b->UInt_0@);
        },
        Data::Logical(_) => {
            lemma_same_ints(a->Logical_0.data->Int_0@, b->Logical_0.data->Int_0@);
        },
        _ => {},
    }
}

proof fn lemma_same_ints(a: Seq<Option<i128>>, b: Seq<Option<i128>>)
    requires
        a.map_values(int_key()) == b.map_values(int_key()),
    ensures
        a == b,
{
    let f = int_key();
    let x = a.map_values(f);
    let y = b.map_values(f);
    assert(x.len() == a.len() && y.len() == b.len());
    assert forall|i: int| 0 <= i < a.len() implies a[i] == b[i] by {
        assert(x[i] == f(a[i]));
        assert(y[i] == f(b[i]));
    }
    assert(a =~= b);
}

proof fn lemma_same_uints(a: Seq<Option<u128>>, b: Seq<Option<u128>>)
    requires
        a.map_values(uint_key()) == b.map_values(uint_key()),
    ensures
        a == b,
{
    let f = uint_key();
    let x = a.map_values(f);
    let y = b.map_values(f);
    assert(x.len() == a.len() && y.len() == b.len());
    assert forall|i: int| 0 <= i < a.len() implies a[i] == b[i] by {
        assert(x[i] == f(a[i]));
        assert(y[i] == f(b[i]));
    }
    assert(a =~= b);
}

/// Sources of numbers, read to the end along two orders that both give them sorted, give the same.
proof fn lemma_sorted_weaves(views: Seq<Seq<Key>>, o1: Seq<u8>, o2: Seq<u8>)
    requires
        views.len() <= 256,
        uses_up(lens(views), o1),
        uses_up(lens(views), o2),
        forall|k: int, i: int|
            0 <= k < views.len() && 0 <= i < views[k].len() ==> (#[trigger] views[k][i]) is Number,
        sorted(weave(views, o1), key_rank()),
        sorted(weave(views, o2), key_rank()),
    ensures
        weave(views, o1) == weave(views, o2),
{
    let a = weave(views, o1);
    let b = weave(views, o2);
    let numbers = Seq::new(views.len(), |k: int| views[k].map_values(number()));
    let le = |x: int, y: int| x <= y;
    assert(lens(numbers) =~= lens(views));
    lemma_weave_map(views, numbers, number(), o1);
    lemma_weave_map(views, numbers, number(), o2);
    lemma_weave_elements(numbers, o1);
    lemma_weave_elements(numbers, o2);
    lemma_all_numbers(views, o1);
    lemma_all_numbers(views, o2);
    let x = a.map_values(number());
    let y = b.map_values(number());
    assert forall|i: int, j: int| 0 <= i < j < x.len() implies #[trigger] le(x[i], x[j]) by {
        assert(key_rank()(a[i], a[j]));
    }
    assert forall|i: int, j: int| 0 <= i < j < y.len() implies #[trigger] le(y[i], y[j]) by {
        assert(key_rank()(b[i], b[j]));
    }
    vstd::seq_lib::lemma_sorted_unique(x, y, le);
    assert(x.len() == a.len() && y.len() == b.len());
    assert forall|i: int| 0 <= i < a.len() implies a[i] == b[i] by {
        assert(a[i] is Number && b[i] is Number);
        assert(x[i] == y[i]);
    }
    assert(a =~= b);
}

/// What is read of sources of numbers are numbers, each of the source that the order names.
proof fn lemma_all_numbers(views: Seq<Seq<Key>>, order: Seq<u8>)
    requires
        uses_up(lens(views), order),
        forall|k: int, i: int|
            0 <= k < views.len() && 0 <= i < views[k].len() ==> (#[trigger] views[k][i]) is Number,
    ensures
        forall|p: int| 0 <= p < order.len() ==> (#[trigger] weave(views, order)[p]) is Number,
{
    assert forall|p: int| 0 <= p < order.len() implies (#[trigger] weave(
        views,
        order,
    )[p]) is Number by {
        let x = order[p] as int;
        assert(order[p] < lens(views).len());
        lemma_occurrences_step(order, p, order[p]);
        assert(occurrences(order, order[p]) == lens(views)[x]);
        let i = occurrences(order.take(p), order[p]) as int;
        assert(views[x][i] is Number);
    }
}

/// No key is held by two sources.
pub open spec fn no_key_is_shared(keys: Seq<Seq<Key>>) -> bool {
    forall|i: int, j: int, a: int, b: int|
        0 <= i < keys.len() && 0 <= j < keys.len() && i != j && 0 <= a < keys[i].len() && 0 <= b
            < keys[j].len() ==> #[trigger] keys[i][a] != #[trigger] keys[j][b]
}

/// Where no key is shared, the keys that come out tell the order.
proof fn lemma_order_told(views: Seq<Seq<Key>>, o1: Seq<u8>, o2: Seq<u8>)
    requires
        uses_up(lens(views), o1),
        uses_up(lens(views), o2),
        weave(views, o1) == weave(views, o2),
        no_key_is_shared(views),
    ensures
        o1 == o2,
{
    assert(weave(views, o1).len() == o1.len());
    assert(weave(views, o2).len() == o2.len());
    assert forall|p: int| 0 <= p < o1.len() implies o1[p] == o2[p] by {
        let x = o1[p] as int;
        let y = o2[p] as int;
        assert(o1[p] < lens(views).len() && o2[p] < lens(views).len());
        lemma_occurrences_step(o1, p, o1[p]);
        lemma_occurrences_step(o2, p, o2[p]);
        assert(occurrences(o1, o1[p]) == lens(views)[x]);
        assert(occurrences(o2, o2[p]) == lens(views)[y]);
        let i = occurrences(o1.take(p), o1[p]) as int;
        let j = occurrences(o2.take(p), o2[p]) as int;
        assert(weave(views, o1)[p] == views[x][i]);
        assert(weave(views, o2)[p] == views[y][j]);
        if x != y {
            assert(views[x][i] != views[y][j]);
        }
    }
    assert(o1 =~= o2);
}

/// Merging frames at once and merging them one after the other agree, where they are sorted by an
/// integer key without nulls: they give the same key column and columns of the same names and
/// types, and where no key occurs in two frames, the same frame.
pub proof fn law_at_once_and_pairwise_agree(
    frames: Seq<FrameView>,
    key: Seq<char>,
    c: int,
    check_schema: bool,
    out: DataFrame,
    folded: DataFrame,
)
    requires
        frames.len() > 0,
        forall|i: int| 0 <= i < frames.len() ==> keyed(#[trigger] frames[i], key, c),
        forall|i: int|
            0 <= i < frames.len() ==> (#[trigger] frames[i]).columns.len()
                == frames[0].columns.len(),
        at_once(frames, key),
        fits_at_once(kept(frames)),
        foldable(frames[0], frames.drop_first(), key, check_schema),
        is_integral(kept(frames)[0].columns[c].data),
        many_way(frames, key, check_schema, Ok::<DataFrame, MergeError>(out)),
        pairwise(
            frames[0],
            frames.drop_first(),
            key,
            check_schema,
            Ok::<DataFrame, MergeError>(folded),
        ),
    ensures
        out@.height == folded@.height,
        out@.columns.len() == folded@.columns.len(),
        forall|d: int|
            0 <= d < out@.columns.len() ==> {
                &&& (#[trigger] out@.columns[d]).name == folded@.columns[d].name
                &&& out@.columns[d].dtype == folded@.columns[d].dtype
            },
        same_data(out@.columns[c].data, folded@.columns[c].data),
        no_key_is_shared(keys_at(columns_at(kept(frames), c))) ==> same_frame(out@, folded@),
{
    let k = kept(frames);
    let width = frames[0].columns.len();
    let keys = keys_of(k, key);
    let ss = columns_at(k, c);
    let views = keys_at(ss);
    law_pairwise_is_one_stable_merge(frames, key, c, check_schema, folded);
    let o2 = choose|order: Seq<u8>|
        {
            &&& #[trigger] merged_along(folded@, k, order)
            &&& stable(keys_at(columns_at(k, c)), order)
        };
    let o1 = choose|order: Seq<u8>|
        {
            &&& #[trigger] number_order(keys, order)
            &&& is_frame_merge(Ok::<DataFrame, MergeError>(out), k, k[0].columns.len(), order)
        };
    assert forall|j: int| 0 <= j < k.len() implies {
        &&& keyed(#[trigger] k[j], key, c)
        &&& k[j].wf()
        &&& k[j].columns.len() == width
        &&& column_of(k[j], key) == k[j].columns[c]
        &&& k[j].columns[c].wf()
        &&& same_type(column_of(frames[0], key), k[j].columns[c])
    } by {
        let i = lemma_kept_member(frames, j);
        assert(keyed(frames[i], key, c) && frames[i].columns.len() == width);
        lemma_column_of(k[j], key, c);
        lemma_no_key_error(frames, key, frames.len(), i);
    }
    assert(k[0].columns.len() == width);
    assert forall|j: int| 0 <= j < k.len() implies follows(
        k[0].columns[c].data,
        (#[trigger] k[j]).columns[c].data,
    ) by {
        let other = if j > 0 {
            j
        } else {
            1
        };
        lemma_none_refused(k[0].columns, c as nat, width);
        assert(covers(k[0], k[other]));
        assert(keyed(k[0], key, c));
        assert(k[0].columns[c].wf());
        lemma_follows_first(k[0].columns[c].data, k[other].columns[c].data);
    }
    lemma_columns_ready(k, width, c);
    lemma_key_lens(k, width, c);
    assert(keys =~= ss);
    assert forall|j: int| 0 <= j < k.len() implies integral_values((#[trigger] ss[j]).data)
        && number_sorted(ss[j].data) by {
        assert(keys[j] == ss[j]);
        assert(keyed(k[j], key, c));
        lemma_integral_keys(ss[j].data);
    }
    assert forall|j: int, i: int|
        0 <= j < views.len() && 0 <= i < views[j].len() implies (
    #[trigger] views[j][i]) is Number by {
        assert(integral_values(ss[j].data));
        lemma_integral_keys(ss[j].data);
    }
    assert(is_column_merge(out@.columns[c], ss, o1));
    assert(is_column_merge(folded@.columns[c], ss, o2));
    assert forall|j: int| 0 <= j < ss.len() implies same_type(ss[0], #[trigger] ss[j]) by {
        assert(keyed(k[0], key, c) && keyed(k[j], key, c));
        lemma_integral_types(column_of(frames[0], key), ss[0], ss[j]);
    }
    lemma_number_order_uses_up(keys, o1, heights(k));
    lemma_merged_keys(out@.columns[c].data, ss, o1);
    lemma_merged_keys(folded@.columns[c].data, ss, o2);
    law_key_merged_at_once_is_sorted(keys, o1, out@.columns[c]);
    let one = seq![out@.columns[c]];
    assert(integral_values(one[0].data));
    lemma_integral_keys(out@.columns[c].data);
    lemma_sorted_weaves(views, o1, o2);
    lemma_integral_same(out@.columns[c].data, folded@.columns[c].data, ss, o1, o2);
    assert forall|d: int| 0 <= d < width implies {
        &&& (#[trigger] out@.columns[d]).name == folded@.columns[d].name
        &&& out@.columns[d].dtype == folded@.columns[d].dtype
    } by {
        assert(is_column_merge(out@.columns[d], columns_at(k, d), o1));
        assert(is_column_merge(folded@.columns[d], columns_at(k, d), o2));
    }
    if no_key_is_shared(views) {
        lemma_order_told(views, o1, o2);
        assert forall|d: int| 0 <= d < width implies same_column(
            #[trigger] out@.columns[d],
            folded@.columns[d],
        ) by {
            assert(is_column_merge(out@.columns[d], columns_at(k, d), o1));
            assert(is_column_merge(folded@.columns[d], columns_at(k, d), o2));
            lemma_merge_of_unique(
                out@.columns[d].data,
                folded@.columns[d].data,
                columns_at(k, d),
                o1,
            );
        }
    }
}

/// Two columns of integers of the type of a third one have one type.
proof fn lemma_integral_types(x: Series, a: Series, b: Series)
    requires
        is_integral(a.data),
        a.wf(),
        b.wf(),
        same_type(x, a),
        same_type(x, b),
    ensures
        same_type(a, b),
{
    reveal_with_fuel(same_type, 2);
}

/// No key column differs from the first one.
proof fn lemma_no_key_error(frames: Seq<FrameView>, key: Seq<char>, n: nat, i: int)
    requires
        key_error(frames, key, n) is None,
        0 <= i < n,
    ensures
        same_type(column_of(frames[0], key), column_of(frames[i], key)),
    decreases n,
{
    if i < n - 1 {
        lemma_no_key_error(frames, key, (n - 1) as nat, i);
    }
}

/// The order of a merge at once takes every row.
proof fn lemma_number_order_uses_up(keys: Seq<Series>, order: Seq<u8>, sizes: Seq<nat>)
    requires
        keys.len() > 0,
        is_integral(keys[0].data),
        by_number(keys),
        number_order(keys, order),
        row_counts(keys) == sizes,
    ensures
        uses_up(sizes, order),
{
    match keys[0].data {
        Data::Int(_) => {
            lemma_values_lens::<IntKeys>(keys);
        },
        Data::UInt(_) => {
            lemma_values_lens::<UIntKeys>(keys);
        },
        Data::Logical(_) => {
            lemma_values_lens::<LogicalKeys>(keys);
        },
        _ => {},
    }
}

/// There is a key value per row.
proof fn lemma_values_lens<P: Numeric>(keys: Seq<Series>)
    requires
        all_of::<P>(keys),
    ensures
        lens(key_values_of::<P>(keys)) == row_counts(keys),
{
    assert forall|k: int| 0 <= k < keys.len() implies #[trigger] lens(key_values_of::<P>(keys))[k]
        == row_counts(keys)[k] by {
        assert(P::values(keys[k].data) is Some);
        P::lemma_len(keys[k].data);
    }
    assert(lens(key_values_of::<P>(keys)) =~= row_counts(keys));
}

/// Keys that frames can be merged at once by: numbers, and what is stored as such.
pub open spec fn is_numeric(d: Data) -> bool {
    is_integral(d) || d is Float || d is Categorical
}

/// Some row of the key column is null.
pub open spec fn has_null_key(d: Data) -> bool {
    exists|i: int| 0 <= i < row_keys(d).len() && (#[trigger] row_keys(d)[i]) is Null
}

/// Everything else falls back: where a key column holds a null, or the key is not a number or
/// stored as one, the frames are merged one after the other.
pub proof fn law_other_keys_merge_pairwise(
    frames: Seq<FrameView>,
    key: Seq<char>,
    check_schema: bool,
    k: int,
    res: Result<DataFrame, MergeError>,
)
    requires
        many_error(frames, key, check_schema) is None,
        kept(frames).len() > 1,
        0 <= k < kept(frames).len(),
        ({
            ||| !is_numeric(column_of(kept(frames)[0], key).data)
            ||| has_null_key(column_of(kept(frames)[k], key).data)
        }),
    ensures
        many_way(frames, key, check_schema, res) <==> pairwise(
            frames[0],
            frames.drop_first(),
            key,
            check_schema,
            res,
        ),
{
    let keys = keys_of(kept(frames), key);
    if by_number(keys) {
        let d = keys[k].data;
        assert(keys[0] == column_of(kept(frames)[0], key));
        let i = choose|i: int| 0 <= i < row_keys(d).len() && (#[trigger] row_keys(d)[i]) is Null;
        assert(row_keys(d)[i] is Null);
        match keys[0].data {
            Data::Int(_) => {
                assert(IntKeys::values(keys[k].data) is Some);
            },
            Data::UInt(_) => {
                assert(UIntKeys::values(keys[k].data) is Some);
            },
            Data::Float(_) => {
                assert(FloatKeys::values(keys[k].data) is Some);
            },
            Data::Logical(_) => {
                assert(LogicalKeys::values(keys[k].data) is Some);
            },
            _ => {
                assert(CodeKeys::values(keys[k].data) is Some);
            },
        }
    }
}

} // verus!
