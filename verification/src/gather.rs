//! Columns read along a merge order.
use crate::cells::{Bytes, Cell, Float64};
use crate::frame::{
    data_len, fits, reads_nothing, refused, refused_among, same_width, Data, MergeError, Series,
    StructData,
};
use crate::merge::{lens, occurrences, uses_up, weave};
use crate::merge_laws::lemma_occurrences_step;
use crate::reading_laws::law_weave_takes_the_next_unread;
use vstd::prelude::*;

verus! {

/// A physical type: the columns that hold cells of one kind.
pub trait Physical {
    type C: Cell;

    /// The cells of a column of this type.
    spec fn cells(d: Data) -> Option<Seq<Self::C>>;

    /// A column has as many cells as rows.
    proof fn lemma_len(d: Data)
        ensures
            Self::cells(d) matches Some(s) ==> s.len() == data_len(d),
    ;

    /// The cells of a column of this type.
    fn array(d: &Data) -> (r: Option<&Vec<Self::C>>)
        ensures
            match r {
                Some(v) => Self::cells(*d) == Some(v@),
                None => Self::cells(*d) is None,
            },
    ;
}

/// Truth values.
pub struct Booleans;

impl Physical for Booleans {
    type C = Option<bool>;

    open spec fn cells(d: Data) -> Option<Seq<Option<bool>>> {
        match d {
            Data::Boolean(v) => Some(v@),
            _ => None,
        }
    }

    proof fn lemma_len(d: Data) {
    }

    fn array(d: &Data) -> (r: Option<&Vec<Option<bool>>>) {
        match d {
            Data::Boolean(v) => Some(v),
            _ => None,
        }
    }
}

/// Signed integers, and logical types by the integers that store them.
pub struct Ints;

impl Physical for Ints {
    type C = Option<i128>;

    open spec fn cells(d: Data) -> Option<Seq<Option<i128>>> {
        match d {
            Data::Int(v) => Some(v@),
            Data::Logical(s) => match s.data {
                Data::Int(v) => Some(v@),
                _ => None,
            },
            _ => None,
        }
    }

    proof fn lemma_len(d: Data) {
        reveal_with_fuel(data_len, 2);
    }

    fn array(d: &Data) -> (r: Option<&Vec<Option<i128>>>) {
        match d {
            Data::Int(v) => Some(v),
            Data::Logical(s) => match &s.data {
                Data::Int(v) => Some(v),
                _ => None,
            },
            _ => None,
        }
    }
}

/// Unsigned integers, and categoricals by their codes.
pub struct UInts;

impl Physical for UInts {
    type C = Option<u128>;

    open spec fn cells(d: Data) -> Option<Seq<Option<u128>>> {
        match d {
            Data::UInt(v) => Some(v@),
            Data::Categorical(s, _) => match s.data {
                Data::UInt(v) => Some(v@),
                _ => None,
            },
            _ => None,
        }
    }

    proof fn lemma_len(d: Data) {
        reveal_with_fuel(data_len, 2);
    }

    fn array(d: &Data) -> (r: Option<&Vec<Option<u128>>>) {
        match d {
            Data::UInt(v) => Some(v),
            Data::Categorical(s, _) => match &s.data {
                Data::UInt(v) => Some(v),
                _ => None,
            },
            _ => None,
        }
    }
}

/// Floating point numbers.
pub struct Floats;

impl Physical for Floats {
    type C = Option<Float64>;

    open spec fn cells(d: Data) -> Option<Seq<Option<Float64>>> {
        match d {
            Data::Float(v) => Some(v@),
            _ => None,
        }
    }

    proof fn lemma_len(d: Data) {
    }

    fn array(d: &Data) -> (r: Option<&Vec<Option<Float64>>>) {
        match d {
            Data::Float(v) => Some(v),
            _ => None,
        }
    }
}

/// Text.
pub struct Strings;

impl Physical for Strings {
    type C = Option<Bytes>;

    open spec fn cells(d: Data) -> Option<Seq<Option<Bytes>>> {
        match d {
            Data::String(v) => Some(v@),
            _ => None,
        }
    }

    proof fn lemma_len(d: Data) {
    }

    fn array(d: &Data) -> (r: Option<&Vec<Option<Bytes>>>) {
        match d {
            Data::String(v) => Some(v),
            _ => None,
        }
    }
}

/// Binary values.
pub struct Binaries;

impl Physical for Binaries {
    type C = Option<Bytes>;

    open spec fn cells(d: Data) -> Option<Seq<Option<Bytes>>> {
        match d {
            Data::Binary(v) => Some(v@),
            _ => None,
        }
    }

    proof fn lemma_len(d: Data) {
    }

    fn array(d: &Data) -> (r: Option<&Vec<Option<Bytes>>>) {
        match d {
            Data::Binary(v) => Some(v),
            _ => None,
        }
    }
}

/// The row encodings of nested columns.
pub struct Encodings;

impl Physical for Encodings {
    type C = Bytes;

    open spec fn cells(d: Data) -> Option<Seq<Bytes>> {
        match d {
            Data::Rows(v) => Some(v@),
            Data::Struct(s) => Some(s.rows@),
            _ => None,
        }
    }

    proof fn lemma_len(d: Data) {
    }

    fn array(d: &Data) -> (r: Option<&Vec<Bytes>>) {
        match d {
            Data::Rows(v) => Some(v),
            Data::Struct(s) => Some(&s.rows),
            _ => None,
        }
    }
}

/// What the references refer to.
pub open spec fn plain(ss: Seq<&Series>) -> Seq<Series> {
    Seq::new(ss.len(), |k: int| *ss[k])
}

/// The rows of each column.
pub open spec fn row_counts(ss: Seq<Series>) -> Seq<nat> {
    Seq::new(ss.len(), |k: int| data_len(ss[k].data))
}

/// The cells of each column.
pub open spec fn sources<P: Physical>(ss: Seq<Series>) -> Seq<Seq<P::C>> {
    Seq::new(ss.len(), |k: int| P::cells(ss[k].data)->0)
}

/// `out` holds the cells of the columns woven along `order`.
pub open spec fn woven<P: Physical>(out: Data, ss: Seq<Series>, order: Seq<u8>) -> bool {
    P::cells(out) == Some(weave(sources::<P>(ss), order))
}

/// Which rows of a struct column are not null.
pub open spec fn valid_rows(d: Data) -> Seq<bool> {
    match d {
        Data::Struct(s) => match s.validity {
            Some(v) => v@,
            None => Seq::new(s.rows@.len(), |i: int| true),
        },
        _ => Seq::empty(),
    }
}

/// Some row is null.
pub open spec fn has_null_rows(d: Data) -> bool {
    exists|i: int| 0 <= i < valid_rows(d).len() && !#[trigger] valid_rows(d)[i]
}

/// Field `f` of each struct column.
pub open spec fn fields_at(ss: Seq<Series>, f: int) -> Seq<Series> {
    Seq::new(ss.len(), |k: int| ss[k].data->Struct_0.fields@[f])
}

/// What stores each extension column.
pub open spec fn storages(ss: Seq<Series>) -> Seq<Series> {
    Seq::new(ss.len(), |k: int| *ss[k].data->Extension_0)
}

/// The merged validity: there is one where some column has a null row.
pub open spec fn woven_validity(
    out: Option<Vec<bool>>,
    ss: Seq<Series>,
    order: Seq<u8>,
) -> bool {
    if exists|k: int| 0 <= k < ss.len() && has_null_rows(#[trigger] ss[k].data) {
        &&& out is Some
        &&& out->0@ == weave(Seq::new(ss.len(), |k: int| valid_rows(ss[k].data)), order)
    } else {
        out is None
    }
}

/// `out` has the type of `first`, and no name.
pub open spec fn unnamed(out: Series, first: Series) -> bool {
    &&& out.name@ == ""@
    &&& out.dtype == first.dtype
}

/// `out` has the name and the type of the first of `ss`.
pub open spec fn named(out: Series, ss: Seq<Series>) -> bool {
    &&& out.name == ss[0].name
    &&& out.dtype == ss[0].dtype
}

/// `out` is the contents of the columns `ss` merged along `order`: of the same kind as those of the
/// first one, with the rows of all of them in that order. The fields of a struct are named as those
/// of the first one; what stores a column has no name.
pub open spec fn merge_of(out: Data, ss: Seq<Series>, order: Seq<u8>) -> bool
    decreases out,
{
    match ss[0].data {
        Data::Null(_) => out matches Data::Null(n) && n == order.len(),
        Data::Boolean(_) => woven::<Booleans>(out, ss, order),
        Data::Int(_) => out is Int && woven::<Ints>(out, ss, order),
        Data::UInt(_) => out is UInt && woven::<UInts>(out, ss, order),
        Data::Float(_) => woven::<Floats>(out, ss, order),
        Data::String(_) => woven::<Strings>(out, ss, order),
        Data::Binary(_) => woven::<Binaries>(out, ss, order),
        Data::Logical(first) => match out {
            Data::Logical(s) => unnamed(*s, *first) && woven::<Ints>(out, ss, order),
            _ => false,
        },
        Data::Categorical(first, names) => match out {
            Data::Categorical(s, kept) => {
                &&& kept == names
                &&& unnamed(*s, *first)
                &&& woven::<UInts>(out, ss, order)
            },
            _ => false,
        },
        Data::Rows(_) => out is Rows && woven::<Encodings>(out, ss, order),
        Data::Struct(first) => match out {
            Data::Struct(s) => {
                &&& woven::<Encodings>(out, ss, order)
                &&& woven_validity(s.validity, ss, order)
                &&& s.fields@.len() == first.fields@.len()
                &&& forall|f: int|
                    0 <= f < s.fields@.len() ==> {
                        &&& named(#[trigger] s.fields@[f], fields_at(ss, f))
                        &&& merge_of(s.fields@[f].data, fields_at(ss, f), order)
                    }
            },
            _ => false,
        },
        Data::Extension(first) => match out {
            Data::Extension(s) => unnamed(*s, *first) && merge_of(
                s.data,
                storages(ss),
                order,
            ),
            _ => false,
        },
        _ => false,
    }
}

/// `out` is the series `ss` merged along `order`, without a name.
pub open spec fn is_merge(out: Series, ss: Seq<Series>, order: Seq<u8>) -> bool {
    &&& unnamed(out, ss[0])
    &&& merge_of(out.data, ss, order)
}

/// `out` is the columns `ss` merged along `order`, named as the first one.
pub open spec fn is_column_merge(out: Series, ss: Seq<Series>, order: Seq<u8>) -> bool {
    &&& named(out, ss)
    &&& merge_of(out.data, ss, order)
}

/// Reads the arrays along `merge_indicator`: place `p` gets the next unread element of the array
/// that it names there.
pub fn merge_ca<C: Cell>(cas: &Vec<&Vec<C>>, merge_indicator: &Vec<u8>) -> (out: Vec<C>)
    requires
        uses_up(
            lens(Seq::new(cas@.len(), |k: int| cas@[k]@)),
            merge_indicator@,
        ),
    ensures
        out@ == weave(Seq::new(cas@.len(), |k: int| cas@[k]@), merge_indicator@),
        out@.len() == merge_indicator@.len(),
        forall|p: int|
            0 <= p < out@.len() ==> #[trigger] out@[p]
                == cas@[merge_indicator@[p] as int]@[merge_indicator@.take(p).to_multiset().count(
                merge_indicator@[p],
            ) as int],
{
    let ghost views = Seq::new(cas@.len(), |k: int| cas@[k]@);
    let ghost order = merge_indicator@;
    let mut positions: Vec<usize> = Vec::with_capacity(cas.len());
    let mut k: usize = 0;
    while k < cas.len()
        invariant
            k <= cas@.len(),
            positions@.len() == k,
            forall|j: int| 0 <= j < k ==> #[trigger] positions@[j] == 0,
        decreases cas@.len() - k,
    {
        positions.push(0);
        k += 1;
    }
    let mut out: Vec<C> = Vec::with_capacity(merge_indicator.len());
    let mut p: usize = 0;
    proof {
        assert(order.take(0) =~= Seq::<u8>::empty());
    }
    while p < merge_indicator.len()
        invariant
            views == Seq::new(cas@.len(), |k: int| cas@[k]@),
            order == merge_indicator@,
            uses_up(lens(views), order),
            p <= order.len(),
            positions@.len() == cas@.len(),
            forall|j: int|
                0 <= j < cas@.len() && j < 256 ==> #[trigger] positions@[j] == occurrences(
                    order.take(p as int),
                    j as u8,
                ),
            out@ == weave(views, order).take(p as int),
        decreases order.len() - p,
    {
        let indicator: usize = merge_indicator[p] as usize;
        let ghost x = order[p as int];
        proof {
            assert(order[p as int] < lens(views).len());
            lemma_occurrences_step(order, p as int, x);
            assert(occurrences(order, x) == lens(views)[x as int]);
            assert(positions@[indicator as int] == occurrences(order.take(p as int), x));
            assert forall|j: int| 0 <= j < 256 && j != x implies #[trigger] occurrences(
                order.take(p + 1),
                j as u8,
            ) == occurrences(order.take(p as int), j as u8) by {
                lemma_occurrences_step(order, p as int, j as u8);
            }
        }
        let source: &Vec<C> = cas[indicator];
        let at: usize = positions[indicator];
        proof {
            assert(at < source.len());
        }
        out.push(source[at].dup());
        positions.set(indicator, at + 1);
        p += 1;
    }
    proof {
        assert forall|p: int| 0 <= p < out@.len() implies #[trigger] out@[p]
            == cas@[order[p] as int]@[order.take(p).to_multiset().count(order[p]) as int] by {
            law_weave_takes_the_next_unread(views, order, p);
            assert(order[p] < lens(views).len());
        }
    }
    out
}

/// The arrays of columns of one physical type.
fn arrays<'a, P: Physical>(ss: &Vec<&'a Series>) -> (out: Vec<&'a Vec<P::C>>)
    requires
        forall|k: int| 0 <= k < ss@.len() ==> P::cells((#[trigger] ss@[k]).data) is Some,
    ensures
        Seq::new(out@.len(), |k: int| out@[k]@) == sources::<P>(plain(ss@)),
{
    let mut out: Vec<&'a Vec<P::C>> = Vec::with_capacity(ss.len());
    let mut k: usize = 0;
    while k < ss.len()
        invariant
            k <= ss@.len(),
            out@.len() == k,
            forall|j: int| 0 <= j < ss@.len() ==> P::cells((#[trigger] ss@[j]).data) is Some,
            forall|j: int|
                0 <= j < k ==> P::cells(ss@[j].data) == Some((#[trigger] out@[j])@),
        decreases ss@.len() - k,
    {
        proof {
            assert(P::cells(ss@[k as int].data) is Some);
        }
        if let Some(v) = P::array(&ss[k].data) {
            out.push(v);
        }
        k += 1;
    }
    proof {
        assert(Seq::new(out@.len(), |k: int| out@[k]@) =~= sources::<P>(plain(ss@)));
    }
    out
}

/// Merges columns of one physical type.
fn merge_as<P: Physical>(ss: &Vec<&Series>, merge_indicator: &Vec<u8>) -> (out: Vec<P::C>)
    requires
        forall|k: int| 0 <= k < ss@.len() ==> P::cells((#[trigger] ss@[k]).data) is Some,
        uses_up(row_counts(plain(ss@)), merge_indicator@),
    ensures
        out@ == weave(sources::<P>(plain(ss@)), merge_indicator@),
        out@.len() == merge_indicator@.len(),
{
    proof {
        assert forall|k: int| 0 <= k < ss@.len() implies #[trigger] lens(
            sources::<P>(plain(ss@)),
        )[k] == row_counts(plain(ss@))[k] by {
            assert(P::cells(ss@[k].data) is Some);
            P::lemma_len(ss@[k].data);
        }
        assert(lens(sources::<P>(plain(ss@))) =~= row_counts(plain(ss@)));
    }
    let cas = arrays::<P>(ss);
    merge_ca(&cas, merge_indicator)
}

/// The merge of series can be read off: they have the physical type and width of the first one,
/// and the order names each of them once per row.
pub open spec fn readable(ss: Seq<Series>, order: Seq<u8>) -> bool {
    &&& 0 < ss.len()
    &&& forall|k: int| 0 <= k < ss.len() ==> (#[trigger] ss[k]).wf()
    &&& forall|k: int| 0 <= k < ss.len() ==> fits(ss[0].data, (#[trigger] ss[k]).data)
    &&& forall|k: int| 0 <= k < ss.len() ==> same_width(ss[0], #[trigger] ss[k])
    &&& reads_nothing(ss[0].data) || uses_up(row_counts(ss), order)
}

/// Which rows of a struct column are not null.
fn rows_valid(s: &StructData) -> (out: Vec<bool>)
    ensures
        out@ == valid_rows(Data::Struct(*s)),
{
    let mut out: Vec<bool> = Vec::with_capacity(s.rows.len());
    match &s.validity {
        Some(v) => {
            let mut i: usize = 0;
            while i < v.len()
                invariant
                    i <= v@.len(),
                    out@ == v@.take(i as int),
                decreases v@.len() - i,
            {
                out.push(v[i]);
                i += 1;
            }
            proof {
                assert(out@ =~= v@);
            }
        },
        None => {
            let mut i: usize = 0;
            while i < s.rows.len()
                invariant
                    i <= s.rows@.len(),
                    out@ =~= Seq::new(i as nat, |j: int| true),
                decreases s.rows@.len() - i,
            {
                out.push(true);
                i += 1;
            }
        },
    }
    out
}

/// Whether all of `rows` are true.
fn all_true(rows: &Vec<bool>) -> (r: bool)
    ensures
        r == (forall|i: int| 0 <= i < rows@.len() ==> #[trigger] rows@[i]),
{
    let mut i: usize = 0;
    while i < rows.len()
        invariant
            i <= rows@.len(),
            forall|j: int| 0 <= j < i ==> #[trigger] rows@[j],
        decreases rows@.len() - i,
    {
        if !rows[i] {
            return false;
        }
        i += 1;
    }
    true
}

/// Merges the validity of struct columns.
fn merge_validity(ss: &Vec<&Series>, merge_indicator: &Vec<u8>) -> (out: Option<Vec<bool>>)
    requires
        forall|k: int| 0 <= k < ss@.len() ==> (#[trigger] ss@[k]).data is Struct,
        forall|k: int| 0 <= k < ss@.len() ==> (#[trigger] ss@[k]).wf(),
        uses_up(row_counts(plain(ss@)), merge_indicator@),
    ensures
        woven_validity(out, plain(ss@), merge_indicator@),
        out matches Some(v) ==> v@.len() == merge_indicator@.len(),
{
    let mut validities: Vec<Vec<bool>> = Vec::with_capacity(ss.len());
    let mut any_null: bool = false;
    let mut k: usize = 0;
    while k < ss.len()
        invariant
            k <= ss@.len(),
            validities@.len() == k,
            forall|j: int| 0 <= j < ss@.len() ==> (#[trigger] ss@[j]).data is Struct,
            forall|j: int|
                0 <= j < k ==> (#[trigger] validities@[j])@ == valid_rows(ss@[j].data),
            any_null == (exists|j: int| 0 <= j < k && has_null_rows((#[trigger] ss@[j]).data)),
        decreases ss@.len() - k,
    {
        proof {
            assert(ss@[k as int].data is Struct);
        }
        if let Data::Struct(s) = &ss[k].data {
            let rows = rows_valid(s);
            if !all_true(&rows) {
                any_null = true;
                proof {
                    assert(has_null_rows(ss@[k as int].data));
                }
            }
            validities.push(rows);
        }
        k += 1;
    }
    proof {
        let all = plain(ss@);
        assert(any_null == (exists|k: int|
            0 <= k < all.len() && has_null_rows(#[trigger] all[k].data))) by {
            if any_null {
                let j = choose|j: int|
                    0 <= j < ss@.len() && has_null_rows((#[trigger] ss@[j]).data);
                assert(has_null_rows(all[j].data));
            } else {
                assert forall|j: int| 0 <= j < all.len() implies !has_null_rows(
                    #[trigger] all[j].data,
                ) by {
                    assert(!has_null_rows(ss@[j].data));
                }
            }
        }
    }
    if !any_null {
        return None;
    }
    let mut cas: Vec<&Vec<bool>> = Vec::with_capacity(validities.len());
    let mut j: usize = 0;
    while j < validities.len()
        invariant
            j <= validities@.len(),
            cas@.len() == j,
            forall|i: int| 0 <= i < j ==> *(#[trigger] cas@[i]) == validities@[i],
        decreases validities@.len() - j,
    {
        cas.push(&validities[j]);
        j += 1;
    }
    proof {
        let views = Seq::new(cas@.len(), |k: int| cas@[k]@);
        let all = plain(ss@);
        assert(views =~= Seq::new(all.len(), |k: int| valid_rows(all[k].data)));
        assert forall|k: int| 0 <= k < views.len() implies #[trigger] lens(views)[k]
            == row_counts(all)[k] by {
            assert(ss@[k].wf() && ss@[k].data is Struct);
        }
        assert(lens(views) =~= row_counts(all));
    }
    Some(merge_ca(&cas, merge_indicator))
}

/// Field `f` of each struct column.
fn field_refs<'a>(ss: &Vec<&'a Series>, f: usize) -> (out: Vec<&'a Series>)
    requires
        forall|k: int|
            0 <= k < ss@.len() ==> ((#[trigger] ss@[k]).data matches Data::Struct(s) && f
                < s.fields@.len()),
    ensures
        plain(out@) == fields_at(plain(ss@), f as int),
{
    let mut out: Vec<&'a Series> = Vec::with_capacity(ss.len());
    let mut k: usize = 0;
    while k < ss.len()
        invariant
            k <= ss@.len(),
            out@.len() == k,
            forall|j: int|
                0 <= j < ss@.len() ==> ((#[trigger] ss@[j]).data matches Data::Struct(s) && f
                    < s.fields@.len()),
            forall|j: int|
                0 <= j < k ==> *(#[trigger] out@[j]) == ss@[j].data->Struct_0.fields@[f as int],
        decreases ss@.len() - k,
    {
        proof {
            assert(ss@[k as int].data is Struct);
        }
        if let Data::Struct(s) = &ss[k].data {
            out.push(&s.fields[f]);
        }
        k += 1;
    }
    proof {
        assert(plain(out@) =~= fields_at(plain(ss@), f as int));
    }
    out
}

/// The storage of each extension column.
fn storage_refs<'a>(ss: &Vec<&'a Series>) -> (out: Vec<&'a Series>)
    requires
        forall|k: int| 0 <= k < ss@.len() ==> (#[trigger] ss@[k]).data is Extension,
    ensures
        plain(out@) == storages(plain(ss@)),
{
    let mut out: Vec<&'a Series> = Vec::with_capacity(ss.len());
    let mut k: usize = 0;
    while k < ss.len()
        invariant
            k <= ss@.len(),
            out@.len() == k,
            forall|j: int| 0 <= j < ss@.len() ==> (#[trigger] ss@[j]).data is Extension,
            forall|j: int| 0 <= j < k ==> *(#[trigger] out@[j]) == *ss@[j].data->Extension_0,
        decreases ss@.len() - k,
    {
        proof {
            assert(ss@[k as int].data is Extension);
        }
        if let Data::Extension(s) = &ss[k].data {
            out.push(s);
        }
        k += 1;
    }
    proof {
        assert(plain(out@) =~= storages(plain(ss@)));
    }
    out
}

/// The fields of readable struct columns are readable.
proof fn lemma_fields_readable(ss: Seq<Series>, order: Seq<u8>, f: int)
    requires
        readable(ss, order),
        ss[0].data is Struct,
        0 <= f < ss[0].data->Struct_0.fields@.len(),
    ensures
        readable(fields_at(ss, f), order),
{
    let fs = fields_at(ss, f);
    assert forall|k: int| 0 <= k < ss.len() implies (#[trigger] fs[k]).wf() && fits(
        fs[0].data,
        fs[k].data,
    ) && same_width(fs[0], fs[k]) && row_counts(fs)[k] == row_counts(ss)[k] by {
        assert(ss[k].wf());
        assert(fits(ss[0].data, ss[k].data) && same_width(ss[0], ss[k]));
        let x = ss[0].data->Struct_0;
        assert(x.fields@[f] == fs[0]);
        assert(ss[k].data->Struct_0.fields@[f] == fs[k]);
    }
    assert(row_counts(fs) =~= row_counts(ss));
}

/// The storages of readable extension columns are readable.
proof fn lemma_storages_readable(ss: Seq<Series>, order: Seq<u8>)
    requires
        readable(ss, order),
        ss[0].data is Extension,
    ensures
        readable(storages(ss), order),
{
    let st = storages(ss);
    assert forall|k: int| 0 <= k < ss.len() implies (#[trigger] st[k]).wf() && fits(
        st[0].data,
        st[k].data,
    ) && same_width(st[0], st[k]) && row_counts(st)[k] == row_counts(ss)[k] by {
        assert(ss[k].wf());
        assert(fits(ss[0].data, ss[k].data) && same_width(ss[0], ss[k]));
    }
    assert(row_counts(st) =~= row_counts(ss));
}

/// A refusal among fewer fields is the first one among more.
proof fn lemma_refusal_stays(fields: Vec<Series>, m: nat, n: nat)
    requires
        m <= n <= fields@.len(),
        refused_among(fields, m) is Some,
    ensures
        refused_among(fields, n) == refused_among(fields, m),
    decreases n,
{
    if m < n {
        lemma_refusal_stays(fields, m, (n - 1) as nat);
    }
}

/// Merging into such a series is refused, whatever the others are and whatever the order.
pub open spec fn is_refused(d: Data) -> bool {
    d is BinaryOffset || d is Logical || d is Categorical || d is Opaque
}

/// Merges series along `merge_indicator`, by their physical type. The merged series has no name.
pub fn merge_series(ss: &Vec<&Series>, merge_indicator: &Vec<u8>) -> (res: Result<
    Series,
    MergeError,
>)
    requires
        ss@.len() > 0,
        is_refused(ss@[0].data) || readable(plain(ss@), merge_indicator@),
    ensures
        match refused(*ss@[0]) {
            Some(dtype) => res == Err::<Series, MergeError>(MergeError::Unsupported { dtype }),
            None => {
                &&& res is Ok
                &&& is_merge(res->Ok_0, plain(ss@), merge_indicator@)
                &&& res->Ok_0.wf()
                &&& res->Ok_0.spec_len() == merge_indicator@.len()
            },
        },
        ss@[0].data is Null || ss@[0].data is Boolean || ss@[0].data is Int || ss@[0].data is UInt
            || ss@[0].data is Float || ss@[0].data is String || ss@[0].data is Binary || ss@[0].data
            is Rows ==> res is Ok,
    decreases ss@[0],
{
    let ghost all = plain(ss@);
    let ghost order = merge_indicator@;
    let first: &Series = ss[0];
    proof {
        assert(all[0] == *first);
        if !is_refused(first.data) {
            assert forall|k: int| 0 <= k < ss@.len() implies (#[trigger] ss@[k]).wf() && fits(
                first.data,
                ss@[k].data,
            ) by {
                assert(all[k].wf() && fits(all[0].data, all[k].data));
            }
        }
    }
    let data: Data = match &first.data {
        Data::Null(_) => Data::Null(merge_indicator.len()),
        Data::Boolean(_) => Data::Boolean(merge_as::<Booleans>(ss, merge_indicator)),
        Data::Int(_) => Data::Int(merge_as::<Ints>(ss, merge_indicator)),
        Data::UInt(_) => Data::UInt(merge_as::<UInts>(ss, merge_indicator)),
        Data::Float(_) => Data::Float(merge_as::<Floats>(ss, merge_indicator)),
        Data::String(_) => Data::String(merge_as::<Strings>(ss, merge_indicator)),
        Data::Binary(_) => Data::Binary(merge_as::<Binaries>(ss, merge_indicator)),
        Data::Rows(_) => Data::Rows(merge_as::<Encodings>(ss, merge_indicator)),
        Data::Struct(s) => {
            let validity = merge_validity(ss, merge_indicator);
            let rows = merge_as::<Encodings>(ss, merge_indicator);
            let mut fields: Vec<Series> = Vec::with_capacity(s.fields.len());
            let mut f: usize = 0;
            while f < s.fields.len()
                invariant
                    all == plain(ss@),
                    order == merge_indicator@,
                    readable(all, order),
                    ss@.len() > 0,
                    *ss@[0] == *first,
                    first.data == Data::Struct(*s),
                    forall|k: int|
                        0 <= k < ss@.len() ==> fits(first.data, (#[trigger] ss@[k]).data),
                    f <= s.fields@.len(),
                    fields@.len() == f,
                    refused_among(s.fields, f as nat) is None,
                    forall|g: int|
                        0 <= g < f ==> {
                            &&& is_column_merge(
                                #[trigger] fields@[g],
                                fields_at(all, g),
                                order,
                            )
                            &&& fields@[g].wf()
                            &&& fields@[g].spec_len() == order.len()
                        },
                decreases s.fields@.len() - f,
            {
                let refs = field_refs(ss, f);
                proof {
                    lemma_fields_readable(all, order, f as int);
                    assert(plain(refs@)[0] == s.fields@[f as int]);
                    assert(*refs@[0] == s.fields@[f as int]);
                    assert(decreases_to!(first => first.data));
                    assert(decreases_to!(first.data => first.data->Struct_0));
                    assert(decreases_to!(s => s.fields));
                    assert(decreases_to!(s.fields => s.fields[f as int]));
                }
                match merge_series(&refs, merge_indicator) {
                    Ok(merged) => {
                        fields.push(
                            Series {
                                name: s.fields[f].name.clone(),
                                dtype: merged.dtype,
                                data: merged.data,
                            },
                        );
                    },
                    Err(e) => {
                        proof {
                            lemma_refusal_stays(s.fields, (f + 1) as nat, s.fields@.len());
                        }
                        return Err(e);
                    },
                }
                f += 1;
            }
            Data::Struct(StructData { fields, validity, rows })
        },
        Data::Extension(s) => {
            let refs = storage_refs(ss);
            proof {
                lemma_storages_readable(all, order);
                assert(plain(refs@)[0] == **s);
            }
            match merge_series(&refs, merge_indicator) {
                Ok(merged) => Data::Extension(Box::new(merged)),
                Err(e) => {
                    return Err(e);
                },
            }
        },
        _ => {
            return Err(MergeError::Unsupported { dtype: first.dtype.clone() });
        },
    };
    Ok(Series { name: "".to_owned(), dtype: first.dtype.clone(), data })
}

} // verus!
