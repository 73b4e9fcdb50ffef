//! Columns and frames of one shape, and which frames can be merged one after the other.
use crate::frame::{
    column_of, common_width, follows, has_column, is_column, lemma_column_of, lemma_follows_first,
    lemma_own_width, mismatch_among, reads_nothing, same_type, same_width, schema_mismatch,
    unmergeable, unmergeable_among, Data, DataFrame, FrameView, MergeError, Series,
};
use crate::gather::{fields_at, is_column_merge, merge_of, named, row_counts, storages};
use crate::indicator::{key_merge_order, lemma_key_order_uses_up};
use crate::merge_frames::{
    columns_at, is_frame_merge, joins, lemma_none_refused, lemma_total_two, refused_column,
    two_way,
};
use crate::physical::{joinable, law_merged_column_len, lemma_merged_ok};
use vstd::prelude::*;

verus! {

/// `a` and `b` differ in their rows and in their names at most.
pub open spec fn same_shape(a: Series, b: Series) -> bool
    decreases a,
{
    &&& a.dtype == b.dtype
    &&& match (a.data, b.data) {
        (Data::Null(_), Data::Null(_)) => true,
        (Data::Boolean(_), Data::Boolean(_)) => true,
        (Data::Int(_), Data::Int(_)) => true,
        (Data::UInt(_), Data::UInt(_)) => true,
        (Data::Float(_), Data::Float(_)) => true,
        (Data::String(_), Data::String(_)) => true,
        (Data::Binary(_), Data::Binary(_)) => true,
        (Data::BinaryOffset(_), Data::BinaryOffset(_)) => true,
        (Data::Logical(x), Data::Logical(y)) => same_shape(*x, *y),
        (Data::Categorical(x, names), Data::Categorical(y, others)) => same_shape(*x, *y) && names
            == others,
        (Data::Rows(_), Data::Rows(_)) => true,
        (Data::Struct(x), Data::Struct(y)) => {
            &&& x.fields@.len() == y.fields@.len()
            &&& forall|f: int|
                0 <= f < x.fields@.len() ==> {
                    &&& (#[trigger] x.fields@[f]).name == y.fields@[f].name
                    &&& same_shape(x.fields@[f], y.fields@[f])
                }
        },
        (Data::Extension(x), Data::Extension(y)) => same_shape(*x, *y),
        (Data::Opaque(_), Data::Opaque(_)) => true,
        _ => false,
    }
}

/// Every column has its own shape.
pub proof fn lemma_own_shape(a: Series)
    ensures
        same_shape(a, a),
    decreases a,
{
    match a.data {
        Data::Logical(x) => {
            lemma_own_shape(*x);
        },
        Data::Categorical(x, _) => {
            lemma_own_shape(*x);
        },
        Data::Struct(x) => {
            assert forall|f: int| 0 <= f < x.fields@.len() implies same_shape(
                #[trigger] x.fields@[f],
                x.fields@[f],
            ) by {
                lemma_own_shape(x.fields@[f]);
            }
        },
        Data::Extension(x) => {
            lemma_own_shape(*x);
        },
        _ => {},
    }
}

/// Columns of one shape have one type.
pub proof fn lemma_shape_types(a: Series, b: Series, x: Series)
    requires
        same_shape(a, b),
    ensures
        same_type(a, x) == same_type(b, x),
    decreases a,
{
    match (a.data, b.data, x.data) {
        (Data::Logical(s), Data::Logical(t), Data::Logical(u)) => {
            lemma_shape_types(*s, *t, *u);
        },
        (Data::Categorical(s, _), Data::Categorical(t, _), Data::Categorical(u, _)) => {
            lemma_shape_types(*s, *t, *u);
        },
        (Data::Extension(s), Data::Extension(t), Data::Extension(u)) => {
            lemma_shape_types(*s, *t, *u);
        },
        (Data::Struct(s), Data::Struct(t), Data::Struct(u)) => {
            if s.fields@.len() == u.fields@.len() {
                assert forall|f: int| 0 <= f < s.fields@.len() implies same_type(
                    #[trigger] s.fields@[f],
                    u.fields@[f],
                ) == same_type(t.fields@[f], u.fields@[f]) && s.fields@[f].name
                    == t.fields@[f].name by {
                    lemma_shape_types(s.fields@[f], t.fields@[f], u.fields@[f]);
                }
                if same_type(a, x) {
                    assert forall|f: int| 0 <= f < t.fields@.len() implies (
                    #[trigger] t.fields@[f]).name@ == u.fields@[f].name@ && same_type(
                        t.fields@[f],
                        u.fields@[f],
                    ) by {
                        assert(same_type(s.fields@[f], u.fields@[f]));
                    }
                }
                if same_type(b, x) {
                    assert forall|f: int| 0 <= f < s.fields@.len() implies (
                    #[trigger] s.fields@[f]).name@ == u.fields@[f].name@ && same_type(
                        s.fields@[f],
                        u.fields@[f],
                    ) by {
                        assert(same_type(t.fields@[f], u.fields@[f]));
                    }
                }
            }
        },
        _ => {},
    }
}

/// Columns of one shape are stored in one width.
pub proof fn lemma_shape_width(a: Series, b: Series, x: Series)
    requires
        same_shape(a, b),
        same_width(a, x),
    ensures
        same_width(b, x),
    decreases a,
{
    match (a.data, b.data, x.data) {
        (Data::Extension(s), Data::Extension(t), Data::Extension(u)) => {
            lemma_shape_width(*s, *t, *u);
        },
        (Data::Struct(s), Data::Struct(t), Data::Struct(u)) => {
            assert forall|f: int| 0 <= f < t.fields@.len() implies same_width(
                #[trigger] t.fields@[f],
                u.fields@[f],
            ) by {
                assert(same_width(s.fields@[f], u.fields@[f]));
                lemma_shape_width(s.fields@[f], t.fields@[f], u.fields@[f]);
            }
        },
        (Data::Logical(_), _, _) => {
            reveal_with_fuel(same_shape, 2);
        },
        (Data::Categorical(_, _), _, _) => {
            reveal_with_fuel(same_shape, 2);
        },
        _ => {},
    }
}

/// The same can be merged into columns of one shape.
pub proof fn lemma_shape_follows(a: Series, b: Series, x: Data)
    requires
        same_shape(a, b),
    ensures
        follows(a.data, x) == follows(b.data, x),
    decreases a,
{
    match (a.data, b.data, x) {
        (Data::Extension(s), Data::Extension(t), Data::Extension(u)) => {
            lemma_shape_follows(*s, *t, u.data);
        },
        (Data::Struct(s), Data::Struct(t), Data::Struct(u)) => {
            assert forall|f: int|
                0 <= f < s.fields@.len() && f < u.fields@.len() implies follows(
                (#[trigger] s.fields@[f]).data,
                u.fields@[f].data,
            ) == follows(t.fields@[f].data, u.fields@[f].data) by {
                lemma_shape_follows(s.fields@[f], t.fields@[f], u.fields@[f].data);
            }
            if follows(a.data, x) {
                assert forall|f: int| 0 <= f < t.fields@.len() implies follows(
                    (#[trigger] t.fields@[f]).data,
                    u.fields@[f].data,
                ) by {
                    assert(follows(s.fields@[f].data, u.fields@[f].data));
                }
            }
            if follows(b.data, x) {
                assert forall|f: int| 0 <= f < s.fields@.len() implies follows(
                    (#[trigger] s.fields@[f]).data,
                    u.fields@[f].data,
                ) by {
                    assert(follows(t.fields@[f].data, u.fields@[f].data));
                }
            }
        },
        _ => {},
    }
}

/// Columns of one shape are refused alike.
pub proof fn lemma_shape_refusal(a: Series, b: Series)
    requires
        same_shape(a, b),
    ensures
        unmergeable(a) == unmergeable(b),
    decreases a, 0nat,
{
    match (a.data, b.data) {
        (Data::Extension(x), Data::Extension(y)) => {
            lemma_shape_refusal(*x, *y);
        },
        (Data::Struct(x), Data::Struct(y)) => {
            lemma_shape_refusal_among(x.fields, y.fields, x.fields@.len());
        },
        _ => {},
    }
}

proof fn lemma_shape_refusal_among(xs: Vec<Series>, ys: Vec<Series>, n: nat)
    requires
        xs@.len() == ys@.len(),
        n <= xs@.len(),
        forall|f: int| 0 <= f < xs@.len() ==> same_shape(#[trigger] xs@[f], ys@[f]),
    ensures
        unmergeable_among(xs, n) == unmergeable_among(ys, n),
    decreases xs, n,
{
    if n > 0 {
        lemma_shape_refusal_among(xs, ys, (n - 1) as nat);
        lemma_shape_refusal(xs@[n - 1], ys@[n - 1]);
    }
}

/// A merge of columns has the shape of the first one.
pub proof fn lemma_merge_shape(out: Series, ss: Seq<Series>, order: Seq<u8>)
    requires
        ss.len() > 0,
        ss[0].wf(),
        out.dtype == ss[0].dtype,
        merge_of(out.data, ss, order),
    ensures
        same_shape(out, ss[0]),
    decreases out,
{
    match (out.data, ss[0].data) {
        (Data::Logical(o), Data::Logical(_)) => {
            reveal_with_fuel(same_shape, 2);
        },
        (Data::Categorical(o, _), Data::Categorical(_, _)) => {
            reveal_with_fuel(same_shape, 2);
        },
        (Data::Struct(o), Data::Struct(first)) => {
            assert forall|f: int| 0 <= f < o.fields@.len() implies (
            #[trigger] o.fields@[f]).name == first.fields@[f].name && same_shape(
                o.fields@[f],
                first.fields@[f],
            ) by {
                let fs = fields_at(ss, f);
                assert(fs[0] == first.fields@[f]);
                assert(named(o.fields@[f], fs));
                lemma_merge_shape(o.fields@[f], fs, order);
            }
        },
        (Data::Extension(o), Data::Extension(first)) => {
            assert(storages(ss)[0] == *first);
            lemma_merge_shape(*o, storages(ss), order);
        },
        _ => {},
    }
}

/// Two frames of one height have columns of the same names and shapes.
pub open spec fn shaped(a: FrameView, b: FrameView) -> bool {
    &&& a.height == b.height
    &&& a.columns.len() == b.columns.len()
    &&& forall|c: int|
        0 <= c < a.columns.len() ==> (#[trigger] a.columns[c]).name == b.columns[c].name
            && same_shape(a.columns[c], b.columns[c])
}

/// The key column stands in the same place of frames of one shape.
pub proof fn lemma_shaped_key(a: FrameView, b: FrameView, key: Seq<char>)
    requires
        shaped(a, b),
    ensures
        has_column(a, key) == has_column(b, key),
        has_column(a, key) ==> same_shape(column_of(a, key), column_of(b, key)),
{
    if has_column(a, key) {
        let c = choose|c: int| #[trigger] is_column(a, key, c);
        lemma_column_of(a, key, c);
        assert(a.columns[c].name == b.columns[c].name);
        assert forall|d: int| 0 <= d < c implies (#[trigger] b.columns[d]).name@ != key by {
            assert(a.columns[d].name == b.columns[d].name);
        }
        lemma_column_of(b, key, c);
    }
    if has_column(b, key) {
        let c = choose|c: int| #[trigger] is_column(b, key, c);
        assert(a.columns[c].name == b.columns[c].name);
        assert forall|d: int| 0 <= d < c implies (#[trigger] a.columns[d]).name@ != key by {
            assert(a.columns[d].name == b.columns[d].name);
        }
        assert(is_column(a, key, c));
    }
}

/// Frames of one shape differ in the same way from others.
pub proof fn lemma_shaped_mismatch(a: FrameView, b: FrameView, r: FrameView, n: nat)
    requires
        shaped(a, b),
        n <= common_width(a, r),
    ensures
        mismatch_among(a, r, n) == mismatch_among(b, r, n),
    decreases n,
{
    if n > 0 {
        lemma_shaped_mismatch(a, b, r, (n - 1) as nat);
        assert(a.columns[n - 1].name == b.columns[n - 1].name);
        lemma_shape_types(a.columns[n - 1], b.columns[n - 1], r.columns[n - 1]);
    }
}

/// Frames of one shape are refused alike.
pub proof fn lemma_shaped_refusal(a: FrameView, b: FrameView, n: nat)
    requires
        shaped(a, b),
        n <= a.columns.len(),
    ensures
        refused_column(a.columns, n) == refused_column(b.columns, n),
    decreases n,
{
    if n > 0 {
        lemma_shaped_refusal(a, b, (n - 1) as nat);
        assert(a.columns[n - 1].name == b.columns[n - 1].name);
        lemma_shape_refusal(a.columns[n - 1], b.columns[n - 1]);
    }
}

/// The same can be merged into frames of one shape.
pub proof fn lemma_shaped_joins(a: FrameView, b: FrameView, r: FrameView, ka: Series, kb: Series)
    requires
        shaped(a, b),
        same_shape(ka, kb),
        joins(a, r, ka),
    ensures
        joins(b, r, kb),
{
    assert forall|c: int|
        0 <= c < common_width(b, r) && refused_column(b.columns, c as nat) is None implies {
        &&& follows((#[trigger] b.columns[c]).data, r.columns[c].data)
        &&& same_width(b.columns[c], r.columns[c])
        &&& kb.data is Null ==> reads_nothing(b.columns[c].data)
    } by {
        lemma_shaped_refusal(a, b, c as nat);
        assert(a.columns[c].name == b.columns[c].name);
        assert(follows(a.columns[c].data, r.columns[c].data));
        lemma_shape_follows(a.columns[c], b.columns[c], r.columns[c].data);
        lemma_shape_width(a.columns[c], b.columns[c], r.columns[c]);
    }
}

/// The first `width` columns of a frame, at another height.
pub open spec fn narrowed(frame: FrameView, width: nat, height: nat) -> FrameView {
    FrameView { height, columns: frame.columns.take(width as int) }
}

/// The frames of `rest` can be merged into `out`, one after the other: wherever a step gets as far
/// as merging columns, those that are left by then can be merged, and the rows can be counted.
pub open spec fn foldable(
    out: FrameView,
    rest: Seq<FrameView>,
    key: Seq<char>,
    check_schema: bool,
) -> bool
    decreases rest.len(),
{
    if rest.len() == 0 || !has_column(out, key) || !has_column(rest[0], key) {
        true
    } else {
        let r = rest[0];
        let tail = rest.drop_first();
        let left_s = column_of(out, key);
        let right_s = column_of(r, key);
        if check_schema && schema_mismatch(out, r) is Some || !same_type(left_s, right_s) {
            true
        } else if r.height == 0 {
            foldable(out, tail, key, check_schema)
        } else if out.height == 0 {
            foldable(r, tail, key, check_schema)
        } else if key_merge_order(left_s.data, right_s.data) is None {
            true
        } else {
            let width = common_width(out, r);
            let height = out.height + r.height;
            &&& height <= usize::MAX
            &&& joins(out, r, left_s)
            &&& refused_column(out.columns, width) is None ==> foldable(
                narrowed(out, width, height),
                tail,
                key,
                check_schema,
            )
        }
    }
}

/// What can be merged into a frame can be merged into another one of its shape.
pub proof fn lemma_foldable_shaped(
    a: FrameView,
    b: FrameView,
    rest: Seq<FrameView>,
    key: Seq<char>,
    check_schema: bool,
)
    requires
        shaped(a, b),
        foldable(a, rest, key, check_schema),
    ensures
        foldable(b, rest, key, check_schema),
    decreases rest.len(),
{
    if rest.len() > 0 && has_column(b, key) && has_column(rest[0], key) {
        let r = rest[0];
        let tail = rest.drop_first();
        lemma_shaped_key(a, b, key);
        let ka = column_of(a, key);
        let kb = column_of(b, key);
        let right_s = column_of(r, key);
        let width = common_width(a, r);
        lemma_shaped_mismatch(a, b, r, width);
        lemma_shape_types(ka, kb, right_s);
        if check_schema && schema_mismatch(a, r) is Some || !same_type(ka, right_s) {
        } else if r.height == 0 {
            lemma_foldable_shaped(a, b, tail, key, check_schema);
        } else if a.height > 0 && key_merge_order(kb.data, right_s.data) is Some {
            let height = a.height + r.height;
            assert(key_merge_order(ka.data, right_s.data) is Some);
            lemma_shaped_joins(a, b, r, ka, kb);
            lemma_shaped_refusal(a, b, width);
            if refused_column(a.columns, width) is None {
                let na = narrowed(a, width, height);
                let nb = narrowed(b, width, height);
                assert forall|c: int| 0 <= c < na.columns.len() implies (
                #[trigger] na.columns[c]).name == nb.columns[c].name && same_shape(
                    na.columns[c],
                    nb.columns[c],
                ) by {
                    assert(a.columns[c].name == b.columns[c].name);
                }
                lemma_foldable_shaped(na, nb, tail, key, check_schema);
            }
        }
    }
}

/// The columns of two frames that are merged can be read along the order of their keys.
pub proof fn lemma_two_way_joinable(left: FrameView, right: FrameView, key: Seq<char>, c: int)
    requires
        left.wf(),
        right.wf(),
        has_column(left, key),
        has_column(right, key),
        joins(left, right, column_of(left, key)),
        key_merge_order(column_of(left, key).data, column_of(right, key).data) is Some,
        0 <= c < common_width(left, right),
        refused_column(left.columns, common_width(left, right)) is None,
    ensures
        joinable(
            columns_at(seq![left, right], c),
            key_merge_order(column_of(left, key).data, column_of(right, key).data)->0,
        ),
{
    let l = column_of(left, key);
    let r = column_of(right, key);
    let cl = choose|d: int| #[trigger] is_column(left, key, d);
    let cr = choose|d: int| #[trigger] is_column(right, key, d);
    lemma_column_of(left, key, cl);
    lemma_column_of(right, key, cr);
    assert(l.wf() && r.wf());
    if !(l.data is Null) {
        lemma_key_order_uses_up(l.data, r.data);
    }
    let ss = columns_at(seq![left, right], c);
    assert(ss[0] == left.columns[c] && ss[1] == right.columns[c]);
    assert(left.columns[c].wf() && right.columns[c].wf());
    lemma_none_refused(left.columns, c as nat, common_width(left, right));
    assert(follows(left.columns[c].data, right.columns[c].data));
    lemma_follows_first(left.columns[c].data, right.columns[c].data);
    lemma_own_width(left.columns[c]);
    assert(row_counts(ss) =~= seq![left.height, right.height]);
}

/// What one step of merging two frames gives.
pub proof fn lemma_step(
    left: FrameView,
    right: FrameView,
    key: Seq<char>,
    check_schema: bool,
    df: DataFrame,
)
    requires
        left.wf(),
        right.wf(),
        has_column(left, key),
        has_column(right, key),
        left.height > 0 && right.height > 0 ==> joins(left, right, column_of(left, key)),
        two_way(
            left,
            right,
            column_of(left, key),
            column_of(right, key),
            check_schema,
            Ok::<DataFrame, MergeError>(df),
        ),
    ensures
        df@.wf(),
        df@.height == left.height + right.height,
        right.height == 0 ==> df@ == left,
        left.height == 0 && right.height > 0 ==> df@ == right,
        left.height > 0 && right.height > 0 ==> {
            let order = key_merge_order(
                column_of(left, key).data,
                column_of(right, key).data,
            );
            &&& order is Some
            &&& is_frame_merge(
                Ok::<DataFrame, MergeError>(df),
                seq![left, right],
                common_width(left, right),
                order->0,
            )
            &&& refused_column(left.columns, common_width(left, right)) is None
            &&& shaped(df@, narrowed(left, common_width(left, right), df@.height))
        },
{
    let l = column_of(left, key);
    let r = column_of(right, key);
    let cl = choose|d: int| #[trigger] is_column(left, key, d);
    let cr = choose|d: int| #[trigger] is_column(right, key, d);
    lemma_column_of(left, key, cl);
    lemma_column_of(right, key, cr);
    assert(l.spec_len() == left.height && r.spec_len() == right.height);
    if left.height > 0 && right.height > 0 {
        let frames = seq![left, right];
        let order = key_merge_order(l.data, r.data)->0;
        let width = common_width(left, right);
        lemma_total_two(left, right);
        assert(l.wf() && r.wf());
        if !(l.data is Null) {
            lemma_key_order_uses_up(l.data, r.data);
        }
        assert forall|c: int| 0 <= c < df@.columns.len() implies {
            &&& (#[trigger] df@.columns[c]).wf()
            &&& df@.columns[c].spec_len() == df@.height
            &&& df@.columns[c].name == left.columns[c].name
            &&& same_shape(df@.columns[c], left.columns[c])
        } by {
            let ss = columns_at(frames, c);
            assert(ss[0] == left.columns[c]);
            lemma_two_way_joinable(left, right, key, c);
            assert(is_column_merge(df@.columns[c], ss, order));
            lemma_merged_ok(df@.columns[c].data, ss, order);
            law_merged_column_len(df@.columns[c].data, ss, order);
            lemma_merge_shape(df@.columns[c], ss, order);
        }
    }
}

/// After one step the other frames can still be merged, one after the other.
pub proof fn lemma_foldable_step(
    out: FrameView,
    rest: Seq<FrameView>,
    key: Seq<char>,
    check_schema: bool,
    next: DataFrame,
)
    requires
        rest.len() > 0,
        out.wf(),
        rest[0].wf(),
        has_column(out, key),
        has_column(rest[0], key),
        foldable(out, rest, key, check_schema),
        two_way(
            out,
            rest[0],
            column_of(out, key),
            column_of(rest[0], key),
            check_schema,
            Ok::<DataFrame, MergeError>(next),
        ),
    ensures
        foldable(next@, rest.drop_first(), key, check_schema),
        out.height > 0 && rest[0].height > 0 ==> joins(out, rest[0], column_of(out, key)),
{
    let r = rest[0];
    let cl = choose|d: int| #[trigger] is_column(out, key, d);
    let cr = choose|d: int| #[trigger] is_column(r, key, d);
    lemma_column_of(out, key, cl);
    lemma_column_of(r, key, cr);
    assert(column_of(out, key).spec_len() == out.height);
    assert(column_of(r, key).spec_len() == r.height);
    lemma_step(out, r, key, check_schema, next);
    if out.height > 0 && r.height > 0 {
        let like = narrowed(out, common_width(out, r), next@.height);
        lemma_shaped_back(next@, like);
        lemma_foldable_shaped(like, next@, rest.drop_first(), key, check_schema);
    }
}

/// To be of one shape goes both ways.
proof fn lemma_shaped_back(a: FrameView, b: FrameView)
    requires
        shaped(a, b),
    ensures
        shaped(b, a),
{
    assert forall|c: int| 0 <= c < b.columns.len() implies (#[trigger] b.columns[c]).name
        == a.columns[c].name && same_shape(b.columns[c], a.columns[c]) by {
        assert(a.columns[c].name == b.columns[c].name);
        lemma_shape_back(a.columns[c], b.columns[c]);
    }
}

/// The same of one column.
pub proof fn lemma_shape_back(a: Series, b: Series)
    requires
        same_shape(a, b),
    ensures
        same_shape(b, a),
    decreases a,
{
    match (a.data, b.data) {
        (Data::Logical(x), Data::Logical(y)) => {
            lemma_shape_back(*x, *y);
        },
        (Data::Categorical(x, _), Data::Categorical(y, _)) => {
            lemma_shape_back(*x, *y);
        },
        (Data::Extension(x), Data::Extension(y)) => {
            lemma_shape_back(*x, *y);
        },
        (Data::Struct(x), Data::Struct(y)) => {
            assert forall|f: int| 0 <= f < y.fields@.len() implies (
            #[trigger] y.fields@[f]).name == x.fields@[f].name && same_shape(
                y.fields@[f],
                x.fields@[f],
            ) by {
                assert(x.fields@[f].name == y.fields@[f].name);
                lemma_shape_back(x.fields@[f], y.fields@[f]);
            }
        },
        _ => {},
    }
}

} // verus!
