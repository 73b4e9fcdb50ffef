//! Frames that hold the same, and that merges of such frames hold the same.
use crate::frame::{
    codes, column_of, common_width, follows, has_column, is_column, lemma_column_of, same_data,
    stored, Data, DataFrame, FrameView, MergeError, Series,
};
use crate::gather::{
    fields_at, has_null_rows, is_column_merge, merge_of, named, storages, valid_rows,
    woven_validity, Binaries, Booleans, Encodings, Floats, Ints, Strings, UInts,
};
use crate::indicator::key_merge_order;
use crate::merge_frames::{columns_at, heights, joins, merges, refused_column, two_way};
use crate::merge_many_frames::pairwise;
use crate::physical::lemma_same_sources;
use crate::shape::{
    foldable, lemma_foldable_step, lemma_shape_types, lemma_shaped_mismatch, lemma_shaped_refusal,
    lemma_step, lemma_two_way_joinable, same_shape, shaped,
};
use vstd::prelude::*;

verus! {

/// Two columns have the same name and type and hold the same.
pub open spec fn same_column(a: Series, b: Series) -> bool {
    &&& a.name == b.name
    &&& a.dtype == b.dtype
    &&& same_data(a.data, b.data)
}

/// Two frames have the same columns, cell by cell.
pub open spec fn same_frame(a: FrameView, b: FrameView) -> bool {
    &&& a.height == b.height
    &&& a.columns.len() == b.columns.len()
    &&& forall|c: int|
        0 <= c < a.columns.len() ==> same_column(#[trigger] a.columns[c], b.columns[c])
}

/// Both are the same frame, or both are the same error.
pub open spec fn same_result(
    a: Result<DataFrame, MergeError>,
    b: Result<DataFrame, MergeError>,
) -> bool {
    match (a, b) {
        (Ok(x), Ok(y)) => same_frame(x@, y@),
        (Err(e), Err(f)) => e == f,
        _ => false,
    }
}

/// Each of `a` has the type of the one of `b` in its place and holds the same.
pub open spec fn same_contents(a: Seq<Series>, b: Seq<Series>) -> bool {
    &&& a.len() == b.len()
    &&& forall|k: int|
        0 <= k < a.len() ==> (#[trigger] a[k]).dtype == b[k].dtype && same_data(
            a[k].data,
            b[k].data,
        )
}

/// Every column holds the same as itself.
pub proof fn lemma_same_self(d: Data)
    ensures
        same_data(d, d),
    decreases d,
{
    match d {
        Data::Logical(s) => {
            lemma_same_self(s.data);
        },
        Data::Categorical(s, _) => {
            lemma_same_self(s.data);
        },
        Data::Struct(s) => {
            assert forall|f: int| 0 <= f < s.fields@.len() implies same_data(
                (#[trigger] s.fields@[f]).data,
                s.fields@[f].data,
            ) by {
                lemma_same_self(s.fields@[f].data);
            }
        },
        Data::Extension(s) => {
            lemma_same_self(s.data);
        },
        _ => {},
    }
}

/// Every frame is the same as itself.
pub proof fn lemma_same_frame_self(a: FrameView)
    ensures
        same_frame(a, a),
{
    assert forall|c: int| 0 <= c < a.columns.len() implies same_column(
        #[trigger] a.columns[c],
        a.columns[c],
    ) by {
        lemma_same_self(a.columns[c].data);
    }
}

/// What holds the same has one shape and as many rows.
proof fn lemma_same_shape(a: Series, b: Series)
    requires
        a.dtype == b.dtype,
        same_data(a.data, b.data),
    ensures
        same_shape(a, b),
        a.spec_len() == b.spec_len(),
    decreases a,
{
    match (a.data, b.data) {
        (Data::Logical(x), Data::Logical(y)) => {
            lemma_same_shape(*x, *y);
        },
        (Data::Categorical(x, _), Data::Categorical(y, _)) => {
            lemma_same_shape(*x, *y);
        },
        (Data::Extension(x), Data::Extension(y)) => {
            lemma_same_shape(*x, *y);
        },
        (Data::Struct(x), Data::Struct(y)) => {
            assert forall|f: int| 0 <= f < x.fields@.len() implies (
            #[trigger] x.fields@[f]).name == y.fields@[f].name && same_shape(
                x.fields@[f],
                y.fields@[f],
            ) by {
                lemma_same_shape(x.fields@[f], y.fields@[f]);
            }
        },
        _ => {},
    }
}

/// Frames that are the same have one shape.
proof fn lemma_same_frame_shaped(a: FrameView, b: FrameView)
    requires
        same_frame(a, b),
    ensures
        shaped(a, b),
{
    assert forall|c: int| 0 <= c < a.columns.len() implies (#[trigger] a.columns[c]).name
        == b.columns[c].name && same_shape(a.columns[c], b.columns[c]) by {
        assert(same_column(a.columns[c], b.columns[c]));
        lemma_same_shape(a.columns[c], b.columns[c]);
    }
}

/// The rows of struct columns that hold the same are null alike.
proof fn lemma_same_validity(
    s1: Seq<Series>,
    s2: Seq<Series>,
    order: Seq<u8>,
    out: Option<Vec<bool>>,
)
    requires
        same_contents(s1, s2),
        woven_validity(out, s1, order),
    ensures
        woven_validity(out, s2, order),
{
    assert forall|k: int| 0 <= k < s1.len() implies valid_rows((#[trigger] s1[k]).data)
        == valid_rows(s2[k].data) by {
        assert(same_data(s1[k].data, s2[k].data));
        assert(valid_rows(s1[k].data) =~= valid_rows(s2[k].data));
    }
    assert(Seq::new(s1.len(), |k: int| valid_rows(s1[k].data)) =~= Seq::new(
        s2.len(),
        |k: int| valid_rows(s2[k].data),
    ));
    if exists|k: int| 0 <= k < s1.len() && has_null_rows(#[trigger] s1[k].data) {
        let k = choose|k: int| 0 <= k < s1.len() && has_null_rows(#[trigger] s1[k].data);
        assert(valid_rows(s1[k].data) == valid_rows(s2[k].data));
        assert(has_null_rows(s2[k].data));
    }
    if exists|k: int| 0 <= k < s2.len() && has_null_rows(#[trigger] s2[k].data) {
        let k = choose|k: int| 0 <= k < s2.len() && has_null_rows(#[trigger] s2[k].data);
        assert(valid_rows(s1[k].data) == valid_rows(s2[k].data));
        assert(has_null_rows(s1[k].data));
    }
}

/// A merge of columns is a merge of any columns that hold the same.
pub proof fn lemma_merge_of_same(out: Data, s1: Seq<Series>, s2: Seq<Series>, order: Seq<u8>)
    requires
        s1.len() > 0,
        same_contents(s1, s2),
        forall|k: int| 0 <= k < s1.len() ==> follows(s1[0].data, (#[trigger] s1[k]).data),
        merge_of(out, s1, order),
    ensures
        merge_of(out, s2, order),
    decreases out,
{
    assert forall|k: int| 0 <= k < s1.len() implies same_data(
        (#[trigger] s1[k]).data,
        s2[k].data,
    ) && follows(s1[0].data, s1[k].data) by {
        assert(s1[k].dtype == s2[k].dtype);
        assert(follows(s1[0].data, s1[k].data));
    }
    reveal_with_fuel(same_data, 2);
    match s1[0].data {
        Data::Boolean(_) => {
            lemma_same_sources::<Booleans>(s1, s2);
        },
        Data::Int(_) => {
            lemma_same_sources::<Ints>(s1, s2);
        },
        Data::UInt(_) => {
            lemma_same_sources::<UInts>(s1, s2);
        },
        Data::Float(_) => {
            lemma_same_sources::<Floats>(s1, s2);
        },
        Data::String(_) => {
            lemma_same_sources::<Strings>(s1, s2);
        },
        Data::Binary(_) => {
            lemma_same_sources::<Binaries>(s1, s2);
        },
        Data::Rows(_) => {
            lemma_same_sources::<Encodings>(s1, s2);
        },
        Data::Logical(_) => {
            lemma_same_sources::<Ints>(s1, s2);
        },
        Data::Categorical(_, _) => {
            lemma_same_sources::<UInts>(s1, s2);
        },
        Data::Extension(_) => {
            lemma_same_storages(s1, s2);
            lemma_merge_of_same(out->Extension_0.data, storages(s1), storages(s2), order);
        },
        Data::Struct(first) => {
            let o = out->Struct_0;
            lemma_same_sources::<Encodings>(s1, s2);
            lemma_same_validity(s1, s2, order, o.validity);
            assert forall|f: int| 0 <= f < o.fields@.len() implies named(
                #[trigger] o.fields@[f],
                fields_at(s2, f),
            ) && merge_of(o.fields@[f].data, fields_at(s2, f), order) by {
                let f1 = fields_at(s1, f);
                let f2 = fields_at(s2, f);
                assert(named(o.fields@[f], f1));
                assert forall|k: int| 0 <= k < f1.len() implies (#[trigger] f1[k]).dtype
                    == f2[k].dtype && same_data(f1[k].data, f2[k].data) && f1[k].name == f2[k].name
                    && follows(f1[0].data, f1[k].data) by {
                    assert(same_data(s1[k].data, s2[k].data));
                    assert(follows(s1[0].data, s1[k].data));
                    assert(first.fields@[f] == f1[0]);
                    assert(s1[k].data->Struct_0.fields@[f] == f1[k]);
                }
                lemma_merge_of_same(o.fields@[f].data, f1, f2, order);
            }
        },
        _ => {},
    }
}

/// What stores columns that hold the same holds the same.
proof fn lemma_same_storages(s1: Seq<Series>, s2: Seq<Series>)
    requires
        s1.len() > 0,
        same_contents(s1, s2),
        forall|k: int| 0 <= k < s1.len() ==> follows(s1[0].data, (#[trigger] s1[k]).data),
        s1[0].data is Extension,
    ensures
        same_contents(storages(s1), storages(s2)),
        forall|k: int|
            0 <= k < s1.len() ==> follows(
                storages(s1)[0].data,
                (#[trigger] storages(s1)[k]).data,
            ),
{
    let t1 = storages(s1);
    let t2 = storages(s2);
    assert forall|k: int| 0 <= k < s1.len() implies (#[trigger] t1[k]).dtype == t2[k].dtype
        && same_data(t1[k].data, t2[k].data) && follows(t1[0].data, t1[k].data) by {
        assert(s1[k].dtype == s2[k].dtype);
        assert(same_data(s1[k].data, s2[k].data));
        assert(follows(s1[0].data, s1[k].data));
    }
}

/// There is one merge of columns along an order.
pub proof fn lemma_merge_of_unique(a: Data, b: Data, ss: Seq<Series>, order: Seq<u8>)
    requires
        ss.len() > 0,
        merge_of(a, ss, order),
        merge_of(b, ss, order),
    ensures
        same_data(a, b),
    decreases a,
{
    reveal_with_fuel(same_data, 2);
    match ss[0].data {
        Data::Extension(_) => {
            lemma_merge_of_unique(a->Extension_0.data, b->Extension_0.data, storages(ss), order);
        },
        Data::Struct(_) => {
            let x = a->Struct_0;
            let y = b->Struct_0;
            assert forall|f: int| 0 <= f < x.fields@.len() implies {
                &&& (#[trigger] x.fields@[f]).name == y.fields@[f].name
                &&& x.fields@[f].dtype == y.fields@[f].dtype
                &&& same_data(x.fields@[f].data, y.fields@[f].data)
            } by {
                assert(named(x.fields@[f], fields_at(ss, f)));
                assert(named(y.fields@[f], fields_at(ss, f)));
                lemma_merge_of_unique(
                    x.fields@[f].data,
                    y.fields@[f].data,
                    fields_at(ss, f),
                    order,
                );
            }
        },
        _ => {},
    }
}

/// The key column stands in the same place of frames that are the same.
proof fn lemma_same_key(a: FrameView, b: FrameView, key: Seq<char>)
    requires
        same_frame(a, b),
        has_column(a, key),
    ensures
        has_column(b, key),
        same_column(column_of(a, key), column_of(b, key)),
{
    let c = choose|c: int| #[trigger] is_column(a, key, c);
    lemma_column_of(a, key, c);
    assert(same_column(a.columns[c], b.columns[c]));
    assert forall|d: int| 0 <= d < c implies (#[trigger] b.columns[d]).name@ != key by {
        assert(same_column(a.columns[d], b.columns[d]));
    }
    lemma_column_of(b, key, c);
}

/// The order in which key columns that hold the same merge with another one.
proof fn lemma_same_key_order(a: Data, b: Data, r: Data)
    requires
        same_data(a, b),
    ensures
        key_merge_order(a, r) == key_merge_order(b, r),
{
    reveal_with_fuel(same_data, 2);
    match (a, b) {
        (Data::Logical(x), Data::Logical(y)) => {
            assert(stored(x.data) =~= stored(y.data));
        },
        (Data::Categorical(x, _), Data::Categorical(y, _)) => {
            assert(codes(x.data) =~= codes(y.data));
        },
        _ => {},
    }
}

/// What a merge of two frames gives of a frame, it gives of a frame that is the same, up to the
/// identity of the columns that are handed on.
proof fn lemma_two_way_carry(
    a: FrameView,
    b: DataFrame,
    r: FrameView,
    key: Seq<char>,
    check_schema: bool,
    res: Result<DataFrame, MergeError>,
) -> (other: Result<DataFrame, MergeError>)
    requires
        same_frame(a, b@),
        a.wf(),
        r.wf(),
        has_column(a, key),
        has_column(r, key),
        merges(a, r, column_of(a, key), column_of(r, key), check_schema) ==> joins(
            a,
            r,
            column_of(a, key),
        ),
        two_way(a, r, column_of(a, key), column_of(r, key), check_schema, res),
    ensures
        has_column(b@, key),
        two_way(b@, r, column_of(b@, key), column_of(r, key), check_schema, other),
        same_result(res, other),
{
    lemma_same_key(a, b@, key);
    let l = column_of(a, key);
    let m = column_of(b@, key);
    let s = column_of(r, key);
    lemma_same_frame_shaped(a, b@);
    lemma_shaped_mismatch(a, b@, r, common_width(a, r));
    lemma_same_shape(l, m);
    lemma_shape_types(l, m, s);
    lemma_same_key_order(l.data, m.data, s.data);
    lemma_key_rows(a, key);
    lemma_key_rows(r, key);
    if s.spec_len() == 0 && res is Ok {
        Ok(b)
    } else {
        if let Ok(df) = res {
            lemma_same_frame_self(df@);
            if l.spec_len() > 0 {
                let order = key_merge_order(l.data, s.data)->0;
                let width = common_width(a, r);
                lemma_shaped_refusal(a, b@, width);
                lemma_same_heights(a, b@, r);
                assert forall|c: int| 0 <= c < width implies is_column_merge(
                    #[trigger] df@.columns[c],
                    columns_at(seq![b@, r], c),
                    order,
                ) by {
                    lemma_carry_column(a, b@, r, key, c, df@.columns[c]);
                }
            }
        } else if l.spec_len() > 0 && s.spec_len() > 0 {
            lemma_shaped_refusal(a, b@, common_width(a, r));
        }
        res
    }
}

/// The rows of the key column are those of the frame.
proof fn lemma_key_rows(a: FrameView, key: Seq<char>)
    requires
        a.wf(),
        has_column(a, key),
    ensures
        column_of(a, key).spec_len() == a.height,
{
    let c = choose|c: int| #[trigger] is_column(a, key, c);
    lemma_column_of(a, key, c);
}

proof fn lemma_same_heights(a: FrameView, b: FrameView, r: FrameView)
    requires
        a.height == b.height,
    ensures
        heights(seq![a, r]) == heights(seq![b, r]),
{
    assert(heights(seq![a, r]) =~= heights(seq![b, r]));
}

/// A merged column of two frames is one of two frames of which the first is the same.
proof fn lemma_carry_column(
    a: FrameView,
    b: FrameView,
    r: FrameView,
    key: Seq<char>,
    c: int,
    out: Series,
)
    requires
        same_frame(a, b),
        a.wf(),
        r.wf(),
        has_column(a, key),
        has_column(r, key),
        joins(a, r, column_of(a, key)),
        0 <= c < common_width(a, r),
        refused_column(a.columns, common_width(a, r)) is None,
        key_merge_order(column_of(a, key).data, column_of(r, key).data) is Some,
        is_column_merge(
            out,
            columns_at(seq![a, r], c),
            key_merge_order(column_of(a, key).data, column_of(r, key).data)->0,
        ),
    ensures
        is_column_merge(
            out,
            columns_at(seq![b, r], c),
            key_merge_order(column_of(a, key).data, column_of(r, key).data)->0,
        ),
{
    let order = key_merge_order(column_of(a, key).data, column_of(r, key).data)->0;
    let s1 = columns_at(seq![a, r], c);
    let s2 = columns_at(seq![b, r], c);
    lemma_two_way_joinable(a, r, key, c);
    assert(same_column(a.columns[c], b.columns[c]));
    lemma_same_self(r.columns[c].data);
    assert forall|k: int| 0 <= k < s1.len() implies (#[trigger] s1[k]).dtype == s2[k].dtype
        && same_data(s1[k].data, s2[k].data) by {
        if k == 0 {
            assert(s1[0] == a.columns[c] && s2[0] == b.columns[c]);
        } else {
            assert(s1[1] == r.columns[c] && s2[1] == r.columns[c]);
        }
    }
    lemma_merge_of_same(out.data, s1, s2, order);
}

/// Merges of frames that are the same are the same.
proof fn lemma_two_way_same(
    a: FrameView,
    b: FrameView,
    r: FrameView,
    key: Seq<char>,
    check_schema: bool,
    res: Result<DataFrame, MergeError>,
    other: Result<DataFrame, MergeError>,
)
    requires
        same_frame(a, b),
        a.wf(),
        r.wf(),
        has_column(a, key),
        has_column(b, key),
        has_column(r, key),
        merges(a, r, column_of(a, key), column_of(r, key), check_schema) ==> joins(
            a,
            r,
            column_of(a, key),
        ),
        two_way(a, r, column_of(a, key), column_of(r, key), check_schema, res),
        two_way(b, r, column_of(b, key), column_of(r, key), check_schema, other),
    ensures
        same_result(res, other),
{
    lemma_same_key(a, b, key);
    let l = column_of(a, key);
    let m = column_of(b, key);
    let s = column_of(r, key);
    let width = common_width(a, r);
    lemma_same_frame_shaped(a, b);
    lemma_shaped_mismatch(a, b, r, width);
    lemma_same_shape(l, m);
    lemma_shape_types(l, m, s);
    lemma_same_key_order(l.data, m.data, s.data);
    lemma_key_rows(a, key);
    lemma_key_rows(r, key);
    lemma_same_frame_self(r);
    lemma_shaped_refusal(a, b, width);
    lemma_same_heights(a, b, r);
    if l.spec_len() > 0 && s.spec_len() > 0 && res is Ok && other is Ok {
        let order = key_merge_order(l.data, s.data)->0;
        let x = res->Ok_0@;
        let y = other->Ok_0@;
        assert forall|c: int| 0 <= c < width implies same_column(
            #[trigger] x.columns[c],
            y.columns[c],
        ) by {
            let s2 = columns_at(seq![b, r], c);
            assert(is_column_merge(x.columns[c], columns_at(seq![a, r], c), order));
            lemma_carry_column(a, b, r, key, c, x.columns[c]);
            assert(is_column_merge(y.columns[c], s2, order));
            lemma_merge_of_unique(x.columns[c].data, y.columns[c].data, s2, order);
        }
    }
}

/// `res` is what merging one more frame after the result `before` gives. An error stays.
pub open spec fn one_more(
    before: Result<DataFrame, MergeError>,
    more: FrameView,
    key: Seq<char>,
    check_schema: bool,
    res: Result<DataFrame, MergeError>,
) -> bool {
    match before {
        Ok(acc) => if !has_column(acc@, key) || !has_column(more, key) {
            res == Err::<DataFrame, MergeError>(MergeError::ColumnNotFound)
        } else {
            two_way(acc@, more, column_of(acc@, key), column_of(more, key), check_schema, res)
        },
        Err(e) => res == Err::<DataFrame, MergeError>(e),
    }
}

/// The step that a merge of several frames starts with.
proof fn lemma_first_step(
    out: FrameView,
    rest: Seq<FrameView>,
    key: Seq<char>,
    check_schema: bool,
    res: Result<DataFrame, MergeError>,
) -> (step: Result<DataFrame, MergeError>)
    requires
        rest.len() > 0,
        has_column(out, key),
        has_column(rest[0], key),
        pairwise(out, rest, key, check_schema, res),
    ensures
        two_way(
            out,
            rest[0],
            column_of(out, key),
            column_of(rest[0], key),
            check_schema,
            step,
        ),
        match step {
            Ok(df) => pairwise(df@, rest.drop_first(), key, check_schema, res),
            Err(e) => res == Err::<DataFrame, MergeError>(e),
        },
{
    choose|step: Result<DataFrame, MergeError>|
        {
            &&& #[trigger] two_way(
                out,
                rest[0],
                column_of(out, key),
                column_of(rest[0], key),
                check_schema,
                step,
            )
            &&& match step {
                Ok(df) => pairwise(df@, rest.drop_first(), key, check_schema, res),
                Err(e) => res == Err::<DataFrame, MergeError>(e),
            }
        }
}

/// Merging one more frame after the others is merging it with what they gave: any such merge is
/// one of all the frames. Where the others gave an error, all of them give it.
pub proof fn law_pairwise_goes_on(
    out: FrameView,
    rest: Seq<FrameView>,
    more: FrameView,
    key: Seq<char>,
    check_schema: bool,
    before: Result<DataFrame, MergeError>,
    res: Result<DataFrame, MergeError>,
)
    requires
        pairwise(out, rest, key, check_schema, before),
        one_more(before, more, key, check_schema, res),
    ensures
        pairwise(out, rest.push(more), key, check_schema, res),
    decreases rest.len(),
{
    let all = rest.push(more);
    if rest.len() == 0 {
        assert(all.drop_first() =~= Seq::<FrameView>::empty());
        assert(all[0] == more);
        if has_column(out, key) && has_column(more, key) {
            if let Ok(df) = res {
                assert(pairwise(df@, all.drop_first(), key, check_schema, res));
            }
            assert(two_way(
                out,
                all[0],
                column_of(out, key),
                column_of(all[0], key),
                check_schema,
                res,
            ));
        }
    } else {
        assert(all[0] == rest[0]);
        if has_column(out, key) && has_column(rest[0], key) {
            let step = lemma_first_step(out, rest, key, check_schema, before);
            assert(all.drop_first() =~= rest.drop_first().push(more));
            if let Ok(next) = step {
                law_pairwise_goes_on(
                    next@,
                    rest.drop_first(),
                    more,
                    key,
                    check_schema,
                    before,
                    res,
                );
            }
            assert(two_way(
                out,
                all[0],
                column_of(out, key),
                column_of(all[0], key),
                check_schema,
                step,
            ));
        }
    }
}

/// Merging one more frame after the others gives nothing else: what it gives is what merging it
/// with the result so far gives, cell by cell, or the same error.
pub proof fn law_pairwise_appends(
    frames: Seq<FrameView>,
    more: FrameView,
    key: Seq<char>,
    check_schema: bool,
    before: Result<DataFrame, MergeError>,
    res: Result<DataFrame, MergeError>,
)
    requires
        frames.len() > 0,
        forall|i: int| 0 <= i < frames.len() ==> (#[trigger] frames[i]).wf(),
        more.wf(),
        foldable(frames[0], frames.drop_first().push(more), key, check_schema),
        pairwise(frames[0], frames.drop_first(), key, check_schema, before),
        pairwise(frames[0], frames.drop_first().push(more), key, check_schema, res),
    ensures
        exists|step: Result<DataFrame, MergeError>|
            {
                &&& #[trigger] one_more(before, more, key, check_schema, step)
                &&& same_result(res, step)
            },
{
    let rest = frames.drop_first();
    lemma_same_frame_self(frames[0]);
    assert forall|i: int| 0 <= i < rest.len() implies (#[trigger] rest[i]).wf() by {
        assert(rest[i] == frames[i + 1]);
    }
    let step = lemma_append(
        frames[0],
        frames[0],
        rest,
        more,
        key,
        check_schema,
        before,
        res,
    );
}

/// Merging one more frame after the others, from frames that are the same.
proof fn lemma_append(
    a: FrameView,
    b: FrameView,
    rest: Seq<FrameView>,
    more: FrameView,
    key: Seq<char>,
    check_schema: bool,
    before: Result<DataFrame, MergeError>,
    res: Result<DataFrame, MergeError>,
) -> (step: Result<DataFrame, MergeError>)
    requires
        same_frame(b, a),
        a.wf(),
        b.wf(),
        forall|i: int| 0 <= i < rest.len() ==> (#[trigger] rest[i]).wf(),
        more.wf(),
        foldable(a, rest.push(more), key, check_schema),
        foldable(b, rest.push(more), key, check_schema),
        pairwise(a, rest, key, check_schema, before),
        pairwise(b, rest.push(more), key, check_schema, res),
    ensures
        one_more(before, more, key, check_schema, step),
        same_result(res, step),
    decreases rest.len(),
{
    let all = rest.push(more);
    assert(all[0] == if rest.len() == 0 {
        more
    } else {
        rest[0]
    });
    lemma_same_back(b, a);
    if has_column(a, key) {
        lemma_same_key(a, b, key);
    }
    if has_column(b, key) {
        lemma_same_key(b, a, key);
    }
    if !has_column(a, key) || !has_column(all[0], key) {
        res
    } else {
        let taken = lemma_first_step(b, all, key, check_schema, res);
        if rest.len() > 0 {
            assert(rest[0].wf());
        }
        lemma_key_rows(b, key);
        lemma_key_rows(all[0], key);
        if rest.len() == 0 {
            assert(all.drop_first() =~= Seq::<FrameView>::empty());
            assert(two_way(b, more, column_of(b, key), column_of(more, key), check_schema, res));
            lemma_two_way_carry(b, before->Ok_0, more, key, check_schema, res)
        } else {
            let first = lemma_first_step(a, rest, key, check_schema, before);
            lemma_two_way_same(b, a, rest[0], key, check_schema, taken, first);
            if let Ok(next) = first {
                let other = taken->Ok_0;
                assert(all.drop_first() =~= rest.drop_first().push(more));
                lemma_foldable_step(a, all, key, check_schema, next);
                lemma_foldable_step(b, all, key, check_schema, other);
                lemma_step(a, rest[0], key, check_schema, next);
                lemma_step(b, rest[0], key, check_schema, other);
                lemma_append(
                    next@,
                    other@,
                    rest.drop_first(),
                    more,
                    key,
                    check_schema,
                    before,
                    res,
                )
            } else {
                res
            }
        }
    }
}

/// Being the same goes both ways.
proof fn lemma_same_back(a: FrameView, b: FrameView)
    requires
        same_frame(a, b),
    ensures
        same_frame(b, a),
{
    assert forall|c: int| 0 <= c < b.columns.len() implies same_column(
        #[trigger] b.columns[c],
        a.columns[c],
    ) by {
        assert(same_column(a.columns[c], b.columns[c]));
        lemma_same_data_back(a.columns[c].data, b.columns[c].data);
    }
}

proof fn lemma_same_data_back(a: Data, b: Data)
    requires
        same_data(a, b),
    ensures
        same_data(b, a),
    decreases a,
{
    match (a, b) {
        (Data::Logical(x), Data::Logical(y)) => {
            lemma_same_data_back(x.data, y.data);
        },
        (Data::Categorical(x, _), Data::Categorical(y, _)) => {
            lemma_same_data_back(x.data, y.data);
        },
        (Data::Extension(x), Data::Extension(y)) => {
            lemma_same_data_back(x.data, y.data);
        },
        (Data::Struct(x), Data::Struct(y)) => {
            assert forall|f: int| 0 <= f < y.fields@.len() implies (
            #[trigger] y.fields@[f]).name == x.fields@[f].name && y.fields@[f].dtype
                == x.fields@[f].dtype && same_data(y.fields@[f].data, x.fields@[f].data) by {
                assert(x.fields@[f].name == y.fields@[f].name);
                lemma_same_data_back(x.fields@[f].data, y.fields@[f].data);
            }
        },
        _ => {},
    }
}

} // verus!
