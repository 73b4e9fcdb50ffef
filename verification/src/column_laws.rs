//! What columns hold, which of them have one type, and what a merge makes of their cells, said of
//! each kind of column.
use crate::frame::{
    codes, data_len, data_ok, fits, follows, physical_data, refused, refused_among, same_data,
    same_type, same_width, stored, unmergeable, unmergeable_among, Data, Series,
};
use crate::gather::{
    fields_at, has_null_rows, is_column_merge, is_merge, merge_of, readable, row_counts, sources,
    storages, valid_rows, Binaries, Booleans, Encodings, Floats, Ints, Strings, UInts,
};
use crate::merge::uses_up;
use crate::physical::{is_physical, joinable, law_merged_column_len, turned};
use crate::reading_laws::law_weave_takes_the_next_unread;
use vstd::prelude::*;

verus! {

/// A column has a row for each cell; one that is stored by another column has the rows of that.
pub proof fn law_rows_are_counted(d: Data)
    ensures
        d matches Data::Null(n) ==> data_len(d) == n,
        d matches Data::Boolean(v) ==> data_len(d) == v@.len(),
        d matches Data::Int(v) ==> data_len(d) == v@.len(),
        d matches Data::UInt(v) ==> data_len(d) == v@.len(),
        d matches Data::Float(v) ==> data_len(d) == v@.len(),
        d matches Data::String(v) ==> data_len(d) == v@.len(),
        d matches Data::Binary(v) ==> data_len(d) == v@.len(),
        d matches Data::BinaryOffset(v) ==> data_len(d) == v@.len(),
        d matches Data::Rows(v) ==> data_len(d) == v@.len(),
        d matches Data::Struct(s) ==> data_len(d) == s.rows@.len(),
        d matches Data::Logical(s) ==> data_len(d) == data_len(s.data),
        d matches Data::Categorical(s, _) ==> data_len(d) == data_len(s.data),
        d matches Data::Extension(s) ==> data_len(d) == data_len(s.data),
        d matches Data::Opaque(n) ==> data_len(d) == n,
{
}

/// Columns of simple kinds are always in order. Logical ones are where integers store them,
/// categorical ones where every code has a text, structs where all their parts have as many rows
/// and are in order.
pub proof fn law_which_columns_are_in_order(s: Series)
    ensures
        s.spec_len() == data_len(s.data),
        s.data is Null || s.data is Boolean || s.data is Int || s.data is UInt || s.data is Float
            || s.data is String || s.data is Binary || s.data is BinaryOffset || s.data is Rows
            || s.data is Opaque ==> s.wf(),
        s.data matches Data::Logical(x) ==> (s.wf() <==> x.data is Int),
        s.data matches Data::Extension(x) ==> (s.wf() <==> x.wf()),
        s.data matches Data::Categorical(x, names) ==> (s.wf() <==> (x.data matches Data::UInt(v)
            && forall|i: int|
            0 <= i < v@.len() ==> ((#[trigger] v@[i]) matches Some(c) ==> c < names@.len()))),
        s.data matches Data::Struct(x) ==> (s.wf() <==> {
            &&& forall|f: int|
                0 <= f < x.fields@.len() ==> {
                    &&& (#[trigger] x.fields@[f]).wf()
                    &&& data_len(x.fields@[f].data) == x.rows@.len()
                }
            &&& x.validity matches Some(v) ==> v@.len() == x.rows@.len()
        }),
{
    if let Data::Categorical(x, names) = s.data {
        if let Data::UInt(v) = x.data {
            assert(codes(x.data) == v@);
        }
    }
    if let Data::Struct(x) = s.data {
        if s.wf() {
            assert forall|f: int| 0 <= f < x.fields@.len() implies (#[trigger] x.fields@[f]).wf()
                && data_len(x.fields@[f].data) == x.rows@.len() by {
                assert(data_ok(x.fields@[f].data));
            }
        }
    }
}

/// Numbers have one width where the names of the types that store them agree; all else has.
pub proof fn law_one_width_is_one_storage(a: Series, b: Series)
    ensures
        a.data is Null || a.data is Boolean || a.data is String || a.data is Binary || a.data
            is BinaryOffset || a.data is Rows || a.data is Opaque ==> same_width(a, b),
        (a.data is Int || a.data is UInt || a.data is Float) && !(b.data is Logical) && !(b.data
            is Categorical) ==> (same_width(a, b) <==> a.dtype@ == b.dtype@),
        a.data is Int || a.data is UInt || a.data is Float ==> (b.data matches Data::Logical(y)
            ==> (same_width(a, b) <==> a.dtype@ == y.dtype@)),
        a.data matches Data::Logical(x) ==> (b.data is Int ==> (same_width(a, b) <==> x.dtype@
            == b.dtype@)),
        a.data matches Data::Logical(x) ==> (b.data matches Data::Logical(y) ==> (same_width(a, b)
            <==> x.dtype@ == y.dtype@)),
        a.data matches Data::Categorical(x, _) ==> (b.data matches Data::Categorical(y, _) ==> (
        same_width(a, b) <==> x.dtype@ == y.dtype@)),
{
}

/// Series of one simple kind and one type can be merged along every order that takes all their
/// rows.
pub proof fn law_series_of_one_kind_can_be_read(ss: Seq<Series>, order: Seq<u8>)
    requires
        0 < ss.len(),
        uses_up(row_counts(ss), order),
        forall|k: int| 0 <= k < ss.len() ==> (#[trigger] ss[k]).dtype@ == ss[0].dtype@,
        ({
            ||| forall|k: int| 0 <= k < ss.len() ==> (#[trigger] ss[k]).data is Null
            ||| forall|k: int| 0 <= k < ss.len() ==> (#[trigger] ss[k]).data is Boolean
            ||| forall|k: int| 0 <= k < ss.len() ==> (#[trigger] ss[k]).data is Int
            ||| forall|k: int| 0 <= k < ss.len() ==> (#[trigger] ss[k]).data is UInt
            ||| forall|k: int| 0 <= k < ss.len() ==> (#[trigger] ss[k]).data is Float
            ||| forall|k: int| 0 <= k < ss.len() ==> (#[trigger] ss[k]).data is String
            ||| forall|k: int| 0 <= k < ss.len() ==> (#[trigger] ss[k]).data is Binary
            ||| forall|k: int| 0 <= k < ss.len() ==> (#[trigger] ss[k]).data is Rows
        }),
    ensures
        readable(ss, order),
        joinable(ss, order),
{
    assert(ss[0] == ss[0]);
}

/// What a logical column is stored as are the integers of the column inside, and the codes of a
/// categorical one likewise.
pub proof fn law_storage_is_what_is_inside(d: Data)
    ensures
        d matches Data::Int(v) ==> stored(d) == v@,
        d matches Data::UInt(v) ==> codes(d) == v@,
        d matches Data::Logical(s) ==> physical_data(d) == s.data,
        d matches Data::Categorical(s, _) ==> physical_data(d) == s.data,
        !(d is Logical) && !(d is Categorical) ==> physical_data(d) == d,
{
}

/// Two columns have one type where the names of their types agree and they are of one kind. Of
/// kinds that hold other columns, those have to have one type too; categoricals need the same text
/// for each code, structs the same fields by name.
pub proof fn law_one_type_is_one_kind(a: Series, b: Series)
    ensures
        same_type(a, b) ==> a.dtype@ == b.dtype@,
        same_type(a, b) ==> {
            &&& a.data is Null <==> b.data is Null
            &&& a.data is Boolean <==> b.data is Boolean
            &&& a.data is Int <==> b.data is Int
            &&& a.data is UInt <==> b.data is UInt
            &&& a.data is Float <==> b.data is Float
            &&& a.data is String <==> b.data is String
            &&& a.data is Binary <==> b.data is Binary
            &&& a.data is BinaryOffset <==> b.data is BinaryOffset
            &&& a.data is Logical <==> b.data is Logical
            &&& a.data is Categorical <==> b.data is Categorical
            &&& a.data is Rows <==> b.data is Rows
            &&& a.data is Struct <==> b.data is Struct
            &&& a.data is Extension <==> b.data is Extension
            &&& a.data is Opaque <==> b.data is Opaque
        },
        a.dtype@ == b.dtype@ ==> {
            &&& a.data is Null && b.data is Null ==> same_type(a, b)
            &&& a.data is Boolean && b.data is Boolean ==> same_type(a, b)
            &&& a.data is Int && b.data is Int ==> same_type(a, b)
            &&& a.data is UInt && b.data is UInt ==> same_type(a, b)
            &&& a.data is Float && b.data is Float ==> same_type(a, b)
            &&& a.data is String && b.data is String ==> same_type(a, b)
            &&& a.data is Binary && b.data is Binary ==> same_type(a, b)
            &&& a.data is BinaryOffset && b.data is BinaryOffset ==> same_type(a, b)
            &&& a.data is Rows && b.data is Rows ==> same_type(a, b)
            &&& a.data is Opaque && b.data is Opaque ==> same_type(a, b)
            &&& a.data matches Data::Logical(x) ==> (b.data matches Data::Logical(y) ==> (same_type(
                a,
                b,
            ) <==> same_type(*x, *y)))
            &&& a.data matches Data::Extension(x) ==> (b.data matches Data::Extension(y) ==> (
            same_type(a, b) <==> same_type(*x, *y)))
            &&& a.data matches Data::Categorical(x, m) ==> (b.data matches Data::Categorical(y, n)
                ==> (same_type(a, b) <==> {
                &&& same_type(*x, *y)
                &&& m@.len() == n@.len()
                &&& forall|i: int| 0 <= i < m@.len() ==> (#[trigger] m@[i])@ == n@[i]@
            }))
            &&& a.data matches Data::Struct(x) ==> (b.data matches Data::Struct(y) ==> (same_type(
                a,
                b,
            ) <==> {
                &&& x.fields@.len() == y.fields@.len()
                &&& forall|f: int|
                    0 <= f < x.fields@.len() ==> {
                        &&& (#[trigger] x.fields@[f]).name@ == y.fields@[f].name@
                        &&& same_type(x.fields@[f], y.fields@[f])
                    }
            }))
        },
{
}

/// Series can be merged as they stand unless they are of a type that has no kernel: binary values
/// behind offsets, what is opaque, and logical types. Columns are turned physical first, so of
/// them only the former two are refused. What holds other columns is refused for the first of them
/// that is.
pub proof fn law_only_types_without_a_kernel_are_refused(s: Series)
    ensures
        s.data is Null || s.data is Boolean || s.data is Int || s.data is UInt || s.data is Float
            || s.data is String || s.data is Binary || s.data is Rows ==> refused(s) is None
            && unmergeable(s) is None,
        s.data is Logical || s.data is Categorical ==> refused(s) == Some(s.dtype) && unmergeable(
            s,
        ) is None,
        s.data is BinaryOffset || s.data is Opaque ==> refused(s) == Some(s.dtype) && unmergeable(s)
            == Some(s.dtype),
        s.data matches Data::Extension(x) ==> refused(s) == refused(*x) && unmergeable(s)
            == unmergeable(*x),
        s.data matches Data::Struct(x) ==> {
            &&& refused(s) is None <==> forall|f: int|
                0 <= f < x.fields@.len() ==> refused(#[trigger] x.fields@[f]) is None
            &&& unmergeable(s) is None <==> forall|f: int|
                0 <= f < x.fields@.len() ==> unmergeable(#[trigger] x.fields@[f]) is None
            &&& forall|f: int|
                #![trigger x.fields@[f]]
                0 <= f < x.fields@.len() && refused(x.fields@[f]) is Some && (forall|g: int|
                    0 <= g < f ==> refused(#[trigger] x.fields@[g]) is None) ==> refused(s)
                    == refused(x.fields@[f])
            &&& forall|f: int|
                #![trigger x.fields@[f]]
                0 <= f < x.fields@.len() && unmergeable(x.fields@[f]) is Some && (forall|g: int|
                    0 <= g < f ==> unmergeable(#[trigger] x.fields@[g]) is None) ==> unmergeable(s)
                    == unmergeable(x.fields@[f])
        },
{
    if let Data::Struct(x) = s.data {
        lemma_first_refused(x.fields, x.fields@.len());
    }
}

/// Among several columns the first that is refused is the one that counts.
proof fn lemma_first_refused(fields: Vec<Series>, n: nat)
    requires
        n <= fields@.len(),
    ensures
        refused_among(fields, n) is None <==> forall|f: int|
            0 <= f < n ==> refused(#[trigger] fields@[f]) is None,
        unmergeable_among(fields, n) is None <==> forall|f: int|
            0 <= f < n ==> unmergeable(#[trigger] fields@[f]) is None,
        forall|f: int|
            #![trigger fields@[f]]
            0 <= f < n && refused(fields@[f]) is Some && (forall|g: int|
                0 <= g < f ==> refused(#[trigger] fields@[g]) is None) ==> refused_among(fields, n)
                == refused(fields@[f]),
        forall|f: int|
            #![trigger fields@[f]]
            0 <= f < n && unmergeable(fields@[f]) is Some && (forall|g: int|
                0 <= g < f ==> unmergeable(#[trigger] fields@[g]) is None) ==> unmergeable_among(
                fields,
                n,
            ) == unmergeable(fields@[f]),
    decreases n,
{
    if n > 0 {
        lemma_first_refused(fields, (n - 1) as nat);
        assert(fields@[n - 1] == fields@[n - 1]);
    }
}

/// Columns of one simple kind can always be merged into each other, and so can integers and what
/// is stored as such.
pub proof fn law_columns_of_one_kind_can_be_merged(a: Data, b: Data)
    ensures
        a is Null ==> follows(a, b) && fits(a, b),
        a is Boolean ==> (follows(a, b) <==> b is Boolean) && (fits(a, b) <==> b is Boolean),
        a is Float ==> (follows(a, b) <==> b is Float) && (fits(a, b) <==> b is Float),
        a is String ==> (follows(a, b) <==> b is String) && (fits(a, b) <==> b is String),
        a is Binary ==> (follows(a, b) <==> b is Binary) && (fits(a, b) <==> b is Binary),
        a is Rows ==> (follows(a, b) <==> b is Rows) && (fits(a, b) <==> b is Rows),
        a is Int && b is Int ==> follows(a, b) && fits(a, b),
        a is UInt && b is UInt ==> follows(a, b) && fits(a, b),
        a is Int || a is Logical ==> (b matches Data::Logical(s) ==> (follows(a, b) <==> s.data
            is Int)),
        a is Logical && b is Int ==> follows(a, b),
        a is UInt ==> (b matches Data::Categorical(s, _) ==> (follows(a, b) <==> s.data is UInt)),
{
}

/// The fields in one place of struct columns, what stores extension columns, and which rows of a
/// struct column are not null.
pub proof fn law_parts_are_what_is_inside(ss: Seq<Series>, k: int, f: int)
    requires
        0 <= k < ss.len(),
    ensures
        fields_at(ss, f).len() == ss.len(),
        ss[k].data matches Data::Struct(s) ==> fields_at(ss, f)[k] == s.fields@[f],
        storages(ss).len() == ss.len(),
        ss[k].data matches Data::Extension(s) ==> storages(ss)[k] == *s,
        ss[k].data matches Data::Struct(s) ==> (s.validity matches Some(v) ==> valid_rows(
            ss[k].data,
        ) == v@),
        ss[k].data matches Data::Struct(s) ==> (s.validity is None ==> {
            &&& valid_rows(ss[k].data).len() == s.rows@.len()
            &&& forall|r: int| 0 <= r < s.rows@.len() ==> #[trigger] valid_rows(ss[k].data)[r]
        }),
{
}

/// A merged column has in place `p`, of the column that the order names there, the cell after those
/// that the order took of it before. It is of the kind of the first column; a logical or
/// categorical one stays what it is, with its text.
pub proof fn law_merged_cells_are_read_in_turn(
    out: Data,
    ss: Seq<Series>,
    order: Seq<u8>,
    p: int,
)
    requires
        ss.len() > 0,
        merge_of(out, ss, order),
        0 <= p < order.len(),
        order[p] < ss.len(),
    ensures
        ({
            let from = ss[order[p] as int].data;
            let i = order.take(p).to_multiset().count(order[p]) as int;
            &&& !(ss[0].data is BinaryOffset) && !(ss[0].data is Opaque)
            &&& ss[0].data is Null ==> (out matches Data::Null(n) && n == order.len())
            &&& ss[0].data is Boolean ==> {
                &&& out matches Data::Boolean(v)
                &&& v@.len() == order.len()
                &&& from matches Data::Boolean(w) ==> v@[p] == w@[i]
            }
            &&& ss[0].data is Int ==> {
                &&& out matches Data::Int(v)
                &&& v@.len() == order.len()
                &&& from matches Data::Int(w) ==> v@[p] == w@[i]
                &&& from matches Data::Logical(s) ==> (s.data matches Data::Int(w) ==> v@[p]
                    == w@[i])
            }
            &&& ss[0].data is UInt ==> {
                &&& out matches Data::UInt(v)
                &&& v@.len() == order.len()
                &&& from matches Data::UInt(w) ==> v@[p] == w@[i]
                &&& from matches Data::Categorical(s, _) ==> (s.data matches Data::UInt(w) ==> v@[p]
                    == w@[i])
            }
            &&& ss[0].data is Float ==> {
                &&& out matches Data::Float(v)
                &&& v@.len() == order.len()
                &&& from matches Data::Float(w) ==> v@[p] == w@[i]
            }
            &&& ss[0].data is String ==> {
                &&& out matches Data::String(v)
                &&& v@.len() == order.len()
                &&& from matches Data::String(w) ==> v@[p] == w@[i]
            }
            &&& ss[0].data is Binary ==> {
                &&& out matches Data::Binary(v)
                &&& v@.len() == order.len()
                &&& from matches Data::Binary(w) ==> v@[p] == w@[i]
            }
            &&& ss[0].data is Rows ==> {
                &&& out matches Data::Rows(v)
                &&& v@.len() == order.len()
                &&& from matches Data::Rows(w) ==> v@[p] == w@[i]
            }
            &&& ss[0].data matches Data::Logical(first) ==> {
                &&& out matches Data::Logical(o)
                &&& o.name@ == ""@
                &&& o.dtype == first.dtype
                &&& o.data matches Data::Int(v)
                &&& v@.len() == order.len()
                &&& from matches Data::Int(w) ==> v@[p] == w@[i]
                &&& from matches Data::Logical(s) ==> (s.data matches Data::Int(w) ==> v@[p]
                    == w@[i])
            }
            &&& ss[0].data matches Data::Categorical(first, names) ==> {
                &&& out matches Data::Categorical(o, kept)
                &&& kept == names
                &&& o.name@ == ""@
                &&& o.dtype == first.dtype
                &&& o.data matches Data::UInt(v)
                &&& v@.len() == order.len()
                &&& from matches Data::UInt(w) ==> v@[p] == w@[i]
                &&& from matches Data::Categorical(s, _) ==> (s.data matches Data::UInt(w) ==> v@[p]
                    == w@[i])
            }
            &&& ss[0].data is Struct ==> {
                &&& out matches Data::Struct(o)
                &&& o.rows@.len() == order.len()
                &&& from matches Data::Struct(s) ==> o.rows@[p] == s.rows@[i]
            }
        }),
{
    law_weave_takes_the_next_unread(sources::<Booleans>(ss), order, p);
    law_weave_takes_the_next_unread(sources::<Ints>(ss), order, p);
    law_weave_takes_the_next_unread(sources::<UInts>(ss), order, p);
    law_weave_takes_the_next_unread(sources::<Floats>(ss), order, p);
    law_weave_takes_the_next_unread(sources::<Strings>(ss), order, p);
    law_weave_takes_the_next_unread(sources::<Binaries>(ss), order, p);
    law_weave_takes_the_next_unread(sources::<Encodings>(ss), order, p);
}

/// A merged column is of the kind of the first one and has a row for each place of the order. There
/// is none of types that have no kernel.
pub proof fn law_merged_column_keeps_its_kind(out: Data, ss: Seq<Series>, order: Seq<u8>)
    requires
        ss.len() > 0,
        merge_of(out, ss, order),
    ensures
        data_len(out) == order.len(),
        !(ss[0].data is BinaryOffset) && !(ss[0].data is Opaque),
        ss[0].data is Null <==> out is Null,
        ss[0].data is Boolean <==> out is Boolean,
        ss[0].data is Int <==> out is Int,
        ss[0].data is UInt <==> out is UInt,
        ss[0].data is Float <==> out is Float,
        ss[0].data is String <==> out is String,
        ss[0].data is Binary <==> out is Binary,
        ss[0].data is Logical <==> out is Logical,
        ss[0].data is Categorical <==> out is Categorical,
        ss[0].data is Rows <==> out is Rows,
        ss[0].data is Struct <==> out is Struct,
        ss[0].data is Extension <==> out is Extension,
        ss[0].data matches Data::Categorical(first, names) ==> (out matches Data::Categorical(
            o,
            kept,
        ) && kept == names && o.name@ == ""@ && o.dtype == first.dtype && o.data is UInt),
        ss[0].data matches Data::Logical(first) ==> (out matches Data::Logical(o) && o.name@ == ""@
            && o.dtype == first.dtype && o.data is Int),
{
    law_merged_column_len(out, ss, order);
}

/// A merged struct has the fields of the first one by name and type, each merged of the fields in
/// its place. It has null rows marked where some row of some column is null, and then row `p` is
/// null as the row is that it was read from.
pub proof fn law_merged_structs_keep_fields_and_nulls(
    out: Data,
    ss: Seq<Series>,
    order: Seq<u8>,
    p: int,
)
    requires
        ss.len() > 0,
        merge_of(out, ss, order),
        ss[0].data is Struct,
    ensures
        ({
            let first = ss[0].data->Struct_0;
            let o = out->Struct_0;
            let i = order.take(p).to_multiset().count(order[p]) as int;
            &&& out is Struct
            &&& o.fields@.len() == first.fields@.len()
            &&& forall|f: int|
                0 <= f < o.fields@.len() ==> {
                    &&& (#[trigger] o.fields@[f]).name == first.fields@[f].name
                    &&& o.fields@[f].dtype == first.fields@[f].dtype
                    &&& merge_of(o.fields@[f].data, fields_at(ss, f), order)
                }
            &&& o.validity is Some <==> exists|k: int, r: int|
                0 <= k < ss.len() && 0 <= r < valid_rows(ss[k].data).len()
                    && !#[trigger] valid_rows(ss[k].data)[r]
            &&& o.validity matches Some(v) ==> {
                &&& v@.len() == order.len()
                &&& 0 <= p < order.len() && order[p] < ss.len() ==> v@[p] == valid_rows(
                    ss[order[p] as int].data,
                )[i]
            }
        }),
{
    let o = out->Struct_0;
    let first = ss[0].data->Struct_0;
    assert forall|f: int| 0 <= f < o.fields@.len() implies {
        &&& (#[trigger] o.fields@[f]).name == first.fields@[f].name
        &&& o.fields@[f].dtype == first.fields@[f].dtype
        &&& merge_of(o.fields@[f].data, fields_at(ss, f), order)
    } by {
        assert(fields_at(ss, f)[0] == first.fields@[f]);
    }
    if 0 <= p < order.len() {
        law_weave_takes_the_next_unread(
            Seq::new(ss.len(), |k: int| valid_rows(ss[k].data)),
            order,
            p,
        );
    }
    let nulls = exists|k: int|
        0 <= k < ss.len() && has_null_rows(#[trigger] ss[k].data);
    assert(nulls <==> exists|k: int, r: int|
        0 <= k < ss.len() && 0 <= r < valid_rows(ss[k].data).len() && !#[trigger] valid_rows(
            ss[k].data,
        )[r]) by {
        if nulls {
            let k = choose|k: int|
                0 <= k < ss.len() && has_null_rows(#[trigger] ss[k].data);
            let r = choose|r: int|
                0 <= r < valid_rows(ss[k].data).len() && !#[trigger] valid_rows(ss[k].data)[r];
            assert(!valid_rows(ss[k].data)[r]);
        }
        if exists|k: int, r: int|
            0 <= k < ss.len() && 0 <= r < valid_rows(ss[k].data).len() && !#[trigger] valid_rows(
                ss[k].data,
            )[r] {
            let (k, r) = choose|k: int, r: int|
                0 <= k < ss.len() && 0 <= r < valid_rows(ss[k].data).len()
                    && !#[trigger] valid_rows(ss[k].data)[r];
            assert(has_null_rows(ss[k].data));
        }
    }
}

/// A merged extension column is one of the same type over its merged storage.
pub proof fn law_merged_extensions_merge_their_storage(
    out: Data,
    ss: Seq<Series>,
    order: Seq<u8>,
)
    requires
        ss.len() > 0,
        merge_of(out, ss, order),
        ss[0].data is Extension,
    ensures
        out matches Data::Extension(o) && o.name@ == ""@ && o.dtype
            == ss[0].data->Extension_0.dtype && merge_of(o.data, storages(ss), order),
{
}

/// A merged column has the name and the type of the first one; a merged series has its type and no
/// name.
pub proof fn law_merged_column_is_like_the_first(out: Series, ss: Seq<Series>, order: Seq<u8>)
    ensures
        is_column_merge(out, ss, order) ==> out.name == ss[0].name && out.dtype == ss[0].dtype
            && merge_of(out.data, ss, order),
        is_merge(out, ss, order) ==> out.name@ == ""@ && out.dtype == ss[0].dtype && merge_of(
            out.data,
            ss,
            order,
        ),
{
}

/// Columns that hold the same are of one kind and have the same cells.
pub proof fn law_the_same_data_has_the_same_cells(a: Data, b: Data)
    requires
        same_data(a, b),
    ensures
        a matches Data::Null(m) ==> (b matches Data::Null(n) && m == n),
        a matches Data::Boolean(v) ==> (b matches Data::Boolean(w) && v@ == w@),
        a matches Data::Int(v) ==> (b matches Data::Int(w) && v@ == w@),
        a matches Data::UInt(v) ==> (b matches Data::UInt(w) && v@ == w@),
        a matches Data::Float(v) ==> (b matches Data::Float(w) && v@ == w@),
        a matches Data::String(v) ==> (b matches Data::String(w) && v@ == w@),
        a matches Data::Binary(v) ==> (b matches Data::Binary(w) && v@ == w@),
        a matches Data::BinaryOffset(v) ==> (b matches Data::BinaryOffset(w) && v@ == w@),
        a matches Data::Rows(v) ==> (b matches Data::Rows(w) && v@ == w@),
        a matches Data::Opaque(m) ==> (b matches Data::Opaque(n) && m == n),
        a matches Data::Logical(x) ==> (b matches Data::Logical(y) && x.dtype == y.dtype
            && same_data(x.data, y.data)),
        a matches Data::Categorical(x, m) ==> (b matches Data::Categorical(y, n) && x.dtype
            == y.dtype && m == n && same_data(x.data, y.data)),
        a matches Data::Extension(x) ==> (b matches Data::Extension(y) && x.dtype == y.dtype
            && same_data(x.data, y.data)),
        a matches Data::Struct(x) ==> {
            &&& b matches Data::Struct(y)
            &&& x.rows@ == y.rows@
            &&& x.validity is Some <==> y.validity is Some
            &&& x.validity matches Some(v) ==> v@ == y.validity->0@
            &&& x.fields@.len() == y.fields@.len()
            &&& forall|f: int|
                0 <= f < x.fields@.len() ==> {
                    &&& (#[trigger] x.fields@[f]).name == y.fields@[f].name
                    &&& x.fields@[f].dtype == y.fields@[f].dtype
                    &&& same_data(x.fields@[f].data, y.fields@[f].data)
                }
        },
{
}

/// The physical form of a column has its cells: of a logical or categorical one those that store
/// it, under their type, and of what holds other columns the physical forms of those. A column is
/// physical where it is not logical or categorical and holds nothing that is.
pub proof fn law_physical_form_has_the_stored_cells(p: Series, s: Series)
    requires
        turned(p, s),
    ensures
        s.data matches Data::Logical(x) ==> p.dtype == x.dtype && same_data(p.data, x.data),
        s.data matches Data::Categorical(x, _) ==> p.dtype == x.dtype && same_data(p.data, x.data),
        !(s.data is Logical) && !(s.data is Categorical) ==> p.dtype == s.dtype,
        !(s.data is Logical) && !(s.data is Categorical) && !(s.data is Struct) && !(s.data
            is Extension) ==> same_data(p.data, s.data),
        s.data matches Data::Extension(x) ==> (p.data matches Data::Extension(y) && turned(*y, *x)),
        s.data matches Data::Struct(x) ==> {
            &&& p.data matches Data::Struct(y)
            &&& y.rows@ == x.rows@
            &&& y.validity is Some <==> x.validity is Some
            &&& y.validity matches Some(v) ==> v@ == x.validity->0@
            &&& y.fields@.len() == x.fields@.len()
            &&& forall|f: int|
                0 <= f < x.fields@.len() ==> {
                    &&& y.fields@[f].name == x.fields@[f].name
                    &&& turned(y.fields@[f], #[trigger] x.fields@[f])
                }
        },
{
}

/// A column is physical where it is not logical or categorical and holds nothing that is.
pub proof fn law_physical_is_not_logical(d: Data)
    ensures
        d is Logical || d is Categorical ==> !is_physical(d),
        d matches Data::Extension(s) ==> (is_physical(d) <==> is_physical(s.data)),
        d matches Data::Struct(s) ==> (is_physical(d) <==> forall|f: int|
            0 <= f < s.fields@.len() ==> is_physical((#[trigger] s.fields@[f]).data)),
        !(d is Logical) && !(d is Categorical) && !(d is Extension) && !(d is Struct)
            ==> is_physical(d),
{
}

} // verus!
