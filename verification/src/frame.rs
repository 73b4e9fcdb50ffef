//! Columns and frames: what a merge reads of them.
use crate::cells::{share, Bytes, Float64};
use std::sync::Arc;
use vstd::prelude::*;

verus! {

/// The physical contents of a column. The variant is the physical type.
#[derive(Debug)]
pub enum Data {
    /// Nulls only: how many.
    Null(usize),
    Boolean(Vec<Option<bool>>),
    /// Signed integers of any width.
    Int(Vec<Option<i128>>),
    /// Unsigned integers of any width.
    UInt(Vec<Option<u128>>),
    /// Floating point numbers, held in double precision.
    Float(Vec<Option<Float64>>),
    /// Text, by its UTF-8 bytes.
    String(Vec<Option<Bytes>>),
    Binary(Vec<Option<Bytes>>),
    /// Binary values behind an offset buffer, as row encodings have them.
    BinaryOffset(Vec<Option<Bytes>>),
    /// A logical type over the signed integers that store it: dates, times, durations, decimals.
    Logical(Box<Series>),
    /// Categoricals and enums: the unsigned integers that store their codes, and the text that
    /// each code stands for.
    Categorical(Box<Series>, Arc<Vec<Bytes>>),
    /// Lists and arrays, each row by its row encoding, whose bytes order as the rows do.
    Rows(Vec<Bytes>),
    Struct(StructData),
    /// An extension type over its storage.
    Extension(Box<Series>),
    /// Anything else: how many rows.
    Opaque(usize),
}

/// The contents of a struct column.
#[derive(Debug)]
pub struct StructData {
    pub fields: Vec<Series>,
    /// Which rows are not null; without it, none is null.
    pub validity: Option<Vec<bool>>,
    /// The row encoding of each row, whose bytes order as the rows do.
    pub rows: Vec<Bytes>,
}

/// A named column of one type.
#[derive(Debug)]
pub struct Series {
    pub name: String,
    /// The name of the type.
    pub dtype: String,
    pub data: Data,
}

/// Columns of one height.
#[derive(Debug)]
pub struct DataFrame {
    pub height: usize,
    pub columns: Vec<Arc<Series>>,
}

/// Why frames could not be merged.
#[derive(Debug)]
pub enum MergeError {
    /// No frame was given.
    NoData,
    /// The key names no column.
    ColumnNotFound,
    /// Two columns in the same place differ in name.
    NameMismatch { left: String, right: String },
    /// Two columns in the same place differ in type.
    SchemaMismatch { left: String, right: String },
    /// Two key columns differ in type.
    DataTypeMismatch { left: String, right: String },
    /// Columns of this type cannot be merged, or not by this key.
    Unsupported { dtype: String },
}

/// The rows of a column.
pub open spec fn data_len(d: Data) -> nat
    decreases d,
{
    match d {
        Data::Null(n) => n as nat,
        Data::Boolean(v) => v@.len(),
        Data::Int(v) => v@.len(),
        Data::UInt(v) => v@.len(),
        Data::Float(v) => v@.len(),
        Data::String(v) => v@.len(),
        Data::Binary(v) => v@.len(),
        Data::BinaryOffset(v) => v@.len(),
        Data::Logical(s) => data_len(s.data),
        Data::Categorical(s, _) => data_len(s.data),
        Data::Rows(v) => v@.len(),
        Data::Struct(s) => s.rows@.len(),
        Data::Extension(s) => data_len(s.data),
        Data::Opaque(n) => n as nat,
    }
}

/// The codes of a categorical column, as they are stored.
pub open spec fn codes(d: Data) -> Seq<Option<u128>> {
    match d {
        Data::UInt(v) => v@,
        _ => Seq::empty(),
    }
}

/// What a logical column is stored as.
pub open spec fn stored(d: Data) -> Seq<Option<i128>> {
    match d {
        Data::Int(v) => v@,
        _ => Seq::empty(),
    }
}

/// Logical types are stored as signed integers, codes as unsigned ones.
pub open spec fn stored_right(d: Data) -> bool {
    match d {
        Data::Logical(s) => s.data is Int,
        Data::Categorical(s, _) => s.data is UInt,
        _ => true,
    }
}

/// A column in order: logical types are stored as they should be, codes have names, and the fields
/// of a struct are as long as itself.
pub open spec fn data_ok(d: Data) -> bool
    decreases d,
{
    match d {
        Data::Logical(s) => s.data is Int,
        Data::Categorical(s, names) => s.data is UInt && codes_named(s.data, names@.len()),
        Data::Struct(s) => {
            &&& forall|f: int|
                0 <= f < s.fields@.len() ==> {
                    &&& data_len((#[trigger] s.fields@[f]).data) == s.rows@.len()
                    &&& data_ok(s.fields@[f].data)
                }
            &&& s.validity matches Some(v) ==> v@.len() == s.rows@.len()
        },
        Data::Extension(s) => data_ok(s.data),
        _ => true,
    }
}

/// `a` and `b` have the same type.
pub open spec fn same_type(a: Series, b: Series) -> bool
    decreases a,
{
    &&& a.dtype@ == b.dtype@
    &&& match (a.data, b.data) {
        (Data::Null(_), Data::Null(_)) => true,
        (Data::Boolean(_), Data::Boolean(_)) => true,
        (Data::Int(_), Data::Int(_)) => true,
        (Data::UInt(_), Data::UInt(_)) => true,
        (Data::Float(_), Data::Float(_)) => true,
        (Data::String(_), Data::String(_)) => true,
        (Data::Binary(_), Data::Binary(_)) => true,
        (Data::BinaryOffset(_), Data::BinaryOffset(_)) => true,
        (Data::Logical(x), Data::Logical(y)) => same_type(*x, *y),
        (Data::Categorical(s, x), Data::Categorical(t, y)) => same_type(*s, *t) && same_names(
            x@,
            y@,
        ),
        (Data::Rows(_), Data::Rows(_)) => true,
        (Data::Struct(x), Data::Struct(y)) => {
            &&& x.fields@.len() == y.fields@.len()
            &&& forall|f: int|
                0 <= f < x.fields@.len() ==> {
                    &&& (#[trigger] x.fields@[f]).name@ == y.fields@[f].name@
                    &&& same_type(x.fields@[f], y.fields@[f])
                }
        },
        (Data::Extension(x), Data::Extension(y)) => same_type(*x, *y),
        (Data::Opaque(_), Data::Opaque(_)) => true,
        _ => false,
    }
}

/// The codes stand for the same text.
pub open spec fn same_names(x: Seq<Bytes>, y: Seq<Bytes>) -> bool {
    &&& x.len() == y.len()
    &&& forall|i: int| 0 <= i < x.len() ==> (#[trigger] x[i])@ == y[i]@
}

/// Every code is one of `n` names.
pub open spec fn codes_named(d: Data, n: nat) -> bool {
    forall|i: int| 0 <= i < codes(d).len() ==> ((#[trigger] codes(d)[i]) matches Some(c) ==> c < n)
}

/// What stores the rows of a column: of a logical or categorical column the integers, of any other
/// column its own contents.
pub open spec fn physical_data(d: Data) -> Data {
    match d {
        Data::Logical(s) => s.data,
        Data::Categorical(s, _) => s.data,
        _ => d,
    }
}

/// A column of contents `b` can be merged into one of contents `a`: where the merge reads the
/// rows of `a`, it finds rows of the same physical kind in `b`. Integers go with any logical type
/// that is stored as such, and the other way round; codes go into a categorical column that has
/// names for them. Into a struct without fields nothing can be merged.
pub open spec fn follows(a: Data, b: Data) -> bool
    decreases a,
{
    match a {
        Data::Null(_) => true,
        Data::Boolean(_) => b is Boolean,
        Data::Int(_) => physical_data(b) is Int,
        Data::UInt(_) => physical_data(b) is UInt,
        Data::Float(_) => b is Float,
        Data::String(_) => b is String,
        Data::Binary(_) => b is Binary,
        Data::BinaryOffset(_) => true,
        Data::Logical(_) => physical_data(b) is Int,
        Data::Categorical(_, names) => physical_data(b) is UInt && codes_named(
            physical_data(b),
            names@.len(),
        ),
        Data::Rows(_) => b is Rows,
        Data::Struct(x) => match b {
            Data::Struct(y) => {
                &&& 0 < x.fields@.len() <= y.fields@.len()
                &&& forall|f: int|
                    0 <= f < x.fields@.len() ==> follows(
                        (#[trigger] x.fields@[f]).data,
                        y.fields@[f].data,
                    )
            },
            _ => false,
        },
        Data::Extension(x) => match b {
            Data::Extension(y) => follows(x.data, y.data),
            _ => false,
        },
        Data::Opaque(_) => true,
    }
}

/// The type of what stores the rows of a column.
pub open spec fn stored_as(s: Series) -> Seq<char> {
    match s.data {
        Data::Logical(x) => x.dtype@,
        Data::Categorical(x, _) => x.dtype@,
        _ => s.dtype@,
    }
}

/// Where `a` is stored in numbers, `b` is stored in numbers of the same width.
pub open spec fn same_width(a: Series, b: Series) -> bool
    decreases a,
{
    match a.data {
        Data::Int(_) => stored_as(a) == stored_as(b),
        Data::UInt(_) => stored_as(a) == stored_as(b),
        Data::Float(_) => stored_as(a) == stored_as(b),
        Data::Logical(_) => stored_as(a) == stored_as(b),
        Data::Categorical(_, _) => stored_as(a) == stored_as(b),
        Data::Struct(x) => b.data matches Data::Struct(y) ==> forall|f: int|
            0 <= f < x.fields@.len() ==> same_width(#[trigger] x.fields@[f], y.fields@[f]),
        Data::Extension(x) => b.data matches Data::Extension(y) ==> same_width(*x, *y),
        _ => true,
    }
}

/// Every column is stored in its own width.
pub proof fn lemma_own_width(a: Series)
    ensures
        same_width(a, a),
    decreases a,
{
    match a.data {
        Data::Struct(x) => {
            assert forall|f: int| 0 <= f < x.fields@.len() implies same_width(
                #[trigger] x.fields@[f],
                x.fields@[f],
            ) by {
                lemma_own_width(x.fields@[f]);
            }
        },
        Data::Extension(x) => {
            lemma_own_width(*x);
        },
        _ => {},
    }
}

/// Columns that have one type with a third one are stored in one width.
pub proof fn lemma_type_width(first: Series, a: Series, b: Series)
    requires
        same_type(first, a),
        same_type(first, b),
    ensures
        same_width(a, b),
    decreases first,
{
    match (first.data, a.data, b.data) {
        (Data::Struct(s), Data::Struct(x), Data::Struct(y)) => {
            assert forall|f: int| 0 <= f < x.fields@.len() implies same_width(
                #[trigger] x.fields@[f],
                y.fields@[f],
            ) by {
                assert(same_type(s.fields@[f], x.fields@[f]));
                assert(same_type(s.fields@[f], y.fields@[f]));
                lemma_type_width(s.fields@[f], x.fields@[f], y.fields@[f]);
            }
        },
        (Data::Extension(s), Data::Extension(x), Data::Extension(y)) => {
            lemma_type_width(*s, *x, *y);
        },
        (Data::Logical(_), _, _) => {
            reveal_with_fuel(same_type, 2);
        },
        (Data::Categorical(_, _), _, _) => {
            reveal_with_fuel(same_type, 2);
        },
        _ => {},
    }
}

/// A series of contents `b` can be merged with one of contents `a` as they stand: where the merge
/// reads the rows of `a`, it finds rows of the same physical type in `b`.
pub open spec fn fits(a: Data, b: Data) -> bool
    decreases a,
{
    match a {
        Data::Boolean(_) => b is Boolean,
        Data::Int(_) => b is Int,
        Data::UInt(_) => b is UInt,
        Data::Float(_) => b is Float,
        Data::String(_) => b is String,
        Data::Binary(_) => b is Binary,
        Data::Rows(_) => b is Rows,
        Data::Struct(x) => match b {
            Data::Struct(y) => {
                &&& 0 < x.fields@.len() <= y.fields@.len()
                &&& forall|f: int|
                    0 <= f < x.fields@.len() ==> fits(
                        (#[trigger] x.fields@[f]).data,
                        y.fields@[f].data,
                    )
            },
            _ => false,
        },
        Data::Extension(x) => match b {
            Data::Extension(y) => fits(x.data, y.data),
            _ => false,
        },
        _ => true,
    }
}

/// Merging into such a column reads no rows: they are all null, or it is refused.
pub open spec fn reads_nothing(d: Data) -> bool {
    d is Null || d is BinaryOffset || d is Opaque
}

/// The type for which a merge of such series is refused, if it is: the first one met, fields
/// being met in turn. Logical types are refused: a series has to be turned physical first.
pub open spec fn refused(s: Series) -> Option<String>
    decreases s, 0nat,
{
    match s.data {
        Data::BinaryOffset(_) => Some(s.dtype),
        Data::Logical(_) => Some(s.dtype),
        Data::Categorical(_, _) => Some(s.dtype),
        Data::Opaque(_) => Some(s.dtype),
        Data::Struct(x) => refused_among(x.fields, x.fields@.len()),
        Data::Extension(x) => refused(*x),
        _ => None,
    }
}

/// The same among the first `n` of several columns.
pub open spec fn refused_among(fields: Vec<Series>, n: nat) -> Option<String>
    decreases fields, n,
{
    if n == 0 || n > fields@.len() {
        None
    } else {
        match refused_among(fields, (n - 1) as nat) {
            Some(dtype) => Some(dtype),
            None => refused(fields@[n - 1]),
        }
    }
}

/// The type for which a merge of such columns is refused also once they are turned physical.
pub open spec fn unmergeable(s: Series) -> Option<String>
    decreases s, 0nat,
{
    match s.data {
        Data::BinaryOffset(_) => Some(s.dtype),
        Data::Opaque(_) => Some(s.dtype),
        Data::Struct(x) => unmergeable_among(x.fields, x.fields@.len()),
        Data::Extension(x) => unmergeable(*x),
        _ => None,
    }
}

/// The same among the first `n` of several columns.
pub open spec fn unmergeable_among(fields: Vec<Series>, n: nat) -> Option<String>
    decreases fields, n,
{
    if n == 0 || n > fields@.len() {
        None
    } else {
        match unmergeable_among(fields, (n - 1) as nat) {
            Some(dtype) => Some(dtype),
            None => unmergeable(fields@[n - 1]),
        }
    }
}

/// What another column can be merged into, the column itself can be merged into.
pub proof fn lemma_follows_first(a: Data, b: Data)
    requires
        data_ok(a),
        follows(a, b),
    ensures
        follows(a, a),
    decreases a,
{
    match (a, b) {
        (Data::Struct(x), Data::Struct(y)) => {
            assert forall|f: int| 0 <= f < x.fields@.len() implies follows(
                (#[trigger] x.fields@[f]).data,
                x.fields@[f].data,
            ) by {
                lemma_follows_first(x.fields@[f].data, y.fields@[f].data);
            }
        },
        (Data::Extension(x), Data::Extension(y)) => {
            lemma_follows_first(x.data, y.data);
        },
        _ => {},
    }
}

/// Columns of the same type can be merged, unless they hold a struct without fields.
pub proof fn law_same_type_can_be_merged(a: Series, b: Series)
    requires
        b.wf(),
        same_type(a, b),
        follows(a.data, a.data),
    ensures
        follows(a.data, b.data),
    decreases a,
{
    match (a.data, b.data) {
        (Data::Struct(x), Data::Struct(y)) => {
            assert forall|f: int| 0 <= f < x.fields@.len() implies follows(
                (#[trigger] x.fields@[f]).data,
                y.fields@[f].data,
            ) by {
                law_same_type_can_be_merged(x.fields@[f], y.fields@[f]);
            }
        },
        (Data::Extension(x), Data::Extension(y)) => {
            law_same_type_can_be_merged(*x, *y);
        },
        _ => {},
    }
}

/// The same rows are valid.
pub open spec fn same_validity(a: Option<Vec<bool>>, b: Option<Vec<bool>>) -> bool {
    match (a, b) {
        (Some(v), Some(w)) => v@ == w@,
        (None, None) => true,
        _ => false,
    }
}

/// `a` and `b` hold the same: cell by cell, with the same names and types inside.
pub open spec fn same_data(a: Data, b: Data) -> bool
    decreases a,
{
    match (a, b) {
        (Data::Null(m), Data::Null(n)) => m == n,
        (Data::Boolean(v), Data::Boolean(w)) => v@ == w@,
        (Data::Int(v), Data::Int(w)) => v@ == w@,
        (Data::UInt(v), Data::UInt(w)) => v@ == w@,
        (Data::Float(v), Data::Float(w)) => v@ == w@,
        (Data::String(v), Data::String(w)) => v@ == w@,
        (Data::Binary(v), Data::Binary(w)) => v@ == w@,
        (Data::BinaryOffset(v), Data::BinaryOffset(w)) => v@ == w@,
        (Data::Rows(v), Data::Rows(w)) => v@ == w@,
        (Data::Logical(x), Data::Logical(y)) => {
            &&& x.name@ == y.name@ && x.dtype == y.dtype
            &&& same_data(x.data, y.data)
        },
        (Data::Categorical(x, names), Data::Categorical(y, others)) => {
            &&& x.name@ == y.name@ && x.dtype == y.dtype
            &&& same_data(x.data, y.data)
            &&& names == others
        },
        (Data::Struct(x), Data::Struct(y)) => {
            &&& x.rows@ == y.rows@
            &&& same_validity(x.validity, y.validity)
            &&& x.fields@.len() == y.fields@.len()
            &&& forall|f: int|
                0 <= f < x.fields@.len() ==> {
                    &&& (#[trigger] x.fields@[f]).name == y.fields@[f].name
                    &&& x.fields@[f].dtype == y.fields@[f].dtype
                    &&& same_data(x.fields@[f].data, y.fields@[f].data)
                }
        },
        (Data::Extension(x), Data::Extension(y)) => {
            &&& x.name@ == y.name@ && x.dtype == y.dtype
            &&& same_data(x.data, y.data)
        },
        (Data::Opaque(m), Data::Opaque(n)) => m == n,
        _ => false,
    }
}

/// The text of two lists of names is the same.
fn names_match(x: &Vec<Bytes>, y: &Vec<Bytes>) -> (r: bool)
    ensures
        r == same_names(x@, y@),
{
    if x.len() != y.len() {
        return false;
    }
    let mut i: usize = 0;
    while i < x.len()
        invariant
            i <= x@.len(),
            x@.len() == y@.len(),
            forall|j: int| 0 <= j < i ==> (#[trigger] x@[j])@ == y@[j]@,
        decreases x@.len() - i,
    {
        if x[i] != y[i] {
            return false;
        }
        i += 1;
    }
    true
}

impl Series {
    /// A column in order.
    pub open spec fn wf(self) -> bool {
        data_ok(self.data)
    }

    /// The number of rows.
    pub open spec fn spec_len(self) -> nat {
        data_len(self.data)
    }

    /// The number of rows.
    pub fn len(&self) -> (n: usize)
        ensures
            n == self.spec_len(),
        decreases self,
    {
        match &self.data {
            Data::Null(n) => *n,
            Data::Boolean(v) => v.len(),
            Data::Int(v) => v.len(),
            Data::UInt(v) => v.len(),
            Data::Float(v) => v.len(),
            Data::String(v) => v.len(),
            Data::Binary(v) => v.len(),
            Data::BinaryOffset(v) => v.len(),
            Data::Logical(s) => s.len(),
            Data::Categorical(s, _) => s.len(),
            Data::Rows(v) => v.len(),
            Data::Struct(s) => s.rows.len(),
            Data::Extension(s) => s.len(),
            Data::Opaque(n) => *n,
        }
    }

    /// Whether both columns have the same type.
    pub fn has_type_of(&self, other: &Series) -> (r: bool)
        ensures
            r == same_type(*self, *other),
        decreases self,
    {
        if self.dtype != other.dtype {
            return false;
        }
        match (&self.data, &other.data) {
            (Data::Null(_), Data::Null(_)) => true,
            (Data::Boolean(_), Data::Boolean(_)) => true,
            (Data::Int(_), Data::Int(_)) => true,
            (Data::UInt(_), Data::UInt(_)) => true,
            (Data::Float(_), Data::Float(_)) => true,
            (Data::String(_), Data::String(_)) => true,
            (Data::Binary(_), Data::Binary(_)) => true,
            (Data::BinaryOffset(_), Data::BinaryOffset(_)) => true,
            (Data::Logical(x), Data::Logical(y)) => x.has_type_of(y),
            (Data::Categorical(s, x), Data::Categorical(t, y)) => s.has_type_of(t) && names_match(
                x,
                y,
            ),
            (Data::Rows(_), Data::Rows(_)) => true,
            (Data::Struct(x), Data::Struct(y)) => {
                if x.fields.len() != y.fields.len() {
                    return false;
                }
                let mut f: usize = 0;
                while f < x.fields.len()
                    invariant
                        f <= x.fields@.len(),
                        x.fields@.len() == y.fields@.len(),
                        self.data == Data::Struct(*x),
                        other.data == Data::Struct(*y),
                        forall|g: int|
                            0 <= g < f ==> {
                                &&& (#[trigger] x.fields@[g]).name@ == y.fields@[g].name@
                                &&& same_type(x.fields@[g], y.fields@[g])
                            },
                    decreases x.fields@.len() - f,
                {
                    proof {
                        assert(decreases_to!(self => self.data));
                        assert(decreases_to!(self.data => self.data->Struct_0));
                        assert(decreases_to!(x => x.fields));
                        assert(decreases_to!(x.fields => x.fields[f as int]));
                    }
                    if x.fields[f].name != y.fields[f].name || !x.fields[f].has_type_of(
                        &y.fields[f],
                    ) {
                        return false;
                    }
                    f += 1;
                }
                true
            },
            (Data::Extension(x), Data::Extension(y)) => x.has_type_of(y),
            (Data::Opaque(_), Data::Opaque(_)) => true,
            _ => false,
        }
    }
}

/// What a frame holds.
pub struct FrameView {
    pub height: nat,
    pub columns: Seq<Series>,
}

/// Where `frame` has the column that `key` names: the first of that name.
pub open spec fn is_column(frame: FrameView, key: Seq<char>, c: int) -> bool {
    &&& 0 <= c < frame.columns.len()
    &&& frame.columns[c].name@ == key
    &&& forall|d: int| 0 <= d < c ==> (#[trigger] frame.columns[d]).name@ != key
}

/// `frame` has a column that `key` names.
pub open spec fn has_column(frame: FrameView, key: Seq<char>) -> bool {
    exists|c: int| #[trigger] is_column(frame, key, c)
}

/// The column that `key` names.
pub open spec fn column_of(frame: FrameView, key: Seq<char>) -> Series {
    frame.columns[choose|c: int| #[trigger] is_column(frame, key, c)]
}

/// There is at most one place for the column that `key` names.
pub proof fn lemma_column_of(frame: FrameView, key: Seq<char>, c: int)
    requires
        is_column(frame, key, c),
    ensures
        has_column(frame, key),
        column_of(frame, key) == frame.columns[c],
{
    let d = choose|d: int| #[trigger] is_column(frame, key, d);
    assert(d == c);
}

/// How two columns in the same place differ, if they do.
pub open spec fn mismatch_at(left: Series, right: Series) -> Option<MergeError> {
    if left.name@ != right.name@ {
        Some(MergeError::NameMismatch { left: left.name, right: right.name })
    } else if !same_type(left, right) {
        Some(MergeError::SchemaMismatch { left: left.dtype, right: right.dtype })
    } else {
        None
    }
}

/// The first difference among the first `n` columns.
pub open spec fn mismatch_among(left: FrameView, right: FrameView, n: nat) -> Option<MergeError>
    decreases n,
{
    if n == 0 {
        None
    } else {
        match mismatch_among(left, right, (n - 1) as nat) {
            Some(e) => Some(e),
            None => mismatch_at(left.columns[n - 1], right.columns[n - 1]),
        }
    }
}

/// The columns that both frames have.
pub open spec fn common_width(left: FrameView, right: FrameView) -> nat {
    if left.columns.len() <= right.columns.len() {
        left.columns.len()
    } else {
        right.columns.len()
    }
}

/// The first difference between the columns of two frames. Where one frame has more columns than
/// the other, those are not looked at.
pub open spec fn schema_mismatch(left: FrameView, right: FrameView) -> Option<MergeError> {
    mismatch_among(left, right, common_width(left, right))
}

impl FrameView {
    /// A frame in order: its columns are, and each has as many rows as the frame.
    pub open spec fn wf(self) -> bool {
        forall|c: int|
            0 <= c < self.columns.len() ==> (#[trigger] self.columns[c]).wf()
                && self.columns[c].spec_len() == self.height
    }
}

impl View for DataFrame {
    type V = FrameView;

    open spec fn view(&self) -> FrameView {
        FrameView {
            height: self.height as nat,
            columns: Seq::new(self.columns@.len(), |c: int| *self.columns@[c]),
        }
    }
}

impl DataFrame {
    /// The number of columns.
    pub fn width(&self) -> (n: usize)
        ensures
            n == self@.columns.len(),
    {
        self.columns.len()
    }

    /// The same frame once more. The columns are shared.
    pub fn duplicate(&self) -> (r: DataFrame)
        ensures
            r@ == self@,
    {
        let mut columns: Vec<Arc<Series>> = Vec::with_capacity(self.columns.len());
        let mut c: usize = 0;
        while c < self.columns.len()
            invariant
                c <= self.columns@.len(),
                columns@ == self.columns@.take(c as int),
            decreases self.columns@.len() - c,
        {
            columns.push(share(&self.columns[c]));
            c += 1;
        }
        let r = DataFrame { height: self.height, columns };
        proof {
            assert(r@.columns =~= self@.columns);
        }
        r
    }

    /// The column that `key` names, if there is one.
    pub fn column(&self, key: &str) -> (r: Option<&Series>)
        ensures
            r is Some <==> has_column(self@, key@),
            r matches Some(s) ==> *s == column_of(self@, key@),
    {
        let wanted: String = key.to_owned();
        let mut c: usize = 0;
        while c < self.columns.len()
            invariant
                c <= self.columns@.len(),
                wanted@ == key@,
                forall|d: int| 0 <= d < c ==> (#[trigger] self@.columns[d]).name@ != key@,
            decreases self.columns@.len() - c,
        {
            if self.columns[c].name == wanted {
                proof {
                    lemma_column_of(self@, key@, c as int);
                }
                return Some(&self.columns[c]);
            }
            c += 1;
        }
        None
    }

    /// Refuses frames whose columns differ in name or type.
    pub fn schema_equal(&self, other: &DataFrame) -> (r: Result<(), MergeError>)
        ensures
            match schema_mismatch(self@, other@) {
                Some(e) => r == Err::<(), MergeError>(e),
                None => r is Ok,
            },
    {
        let mut c: usize = 0;
        while c < self.columns.len() && c < other.columns.len()
            invariant
                c <= self.columns@.len(),
                c <= other.columns@.len(),
                mismatch_among(self@, other@, c as nat) is None,
            decreases self.columns@.len() - c,
        {
            let left: &Series = &self.columns[c];
            let right: &Series = &other.columns[c];
            let found: Option<MergeError> = if left.name != right.name {
                Some(MergeError::NameMismatch {
                    left: left.name.clone(),
                    right: right.name.clone(),
                })
            } else if !left.has_type_of(right) {
                Some(MergeError::SchemaMismatch {
                    left: left.dtype.clone(),
                    right: right.dtype.clone(),
                })
            } else {
                None
            };
            if let Some(e) = found {
                proof {
                    lemma_mismatch_stays(
                        self@,
                        other@,
                        (c + 1) as nat,
                        common_width(self@, other@),
                    );
                }
                return Err(e);
            }
            c += 1;
        }
        Ok(())
    }
}

/// A difference among fewer columns is the first one among more.
proof fn lemma_mismatch_stays(left: FrameView, right: FrameView, m: nat, n: nat)
    requires
        m <= n,
        mismatch_among(left, right, m) is Some,
    ensures
        mismatch_among(left, right, n) == mismatch_among(left, right, m),
    decreases n,
{
    if m < n {
        lemma_mismatch_stays(left, right, m, (n - 1) as nat);
    }
}

/// Frames between which there is no difference have columns of the same names and types.
pub proof fn lemma_no_mismatch(left: FrameView, right: FrameView, c: int)
    requires
        schema_mismatch(left, right) is None,
        0 <= c < common_width(left, right),
    ensures
        left.columns[c].name@ == right.columns[c].name@,
        same_type(left.columns[c], right.columns[c]),
{
    if mismatch_among(left, right, (c + 1) as nat) is Some {
        lemma_mismatch_stays(left, right, (c + 1) as nat, common_width(left, right));
    }
    if mismatch_among(left, right, c as nat) is Some {
        lemma_mismatch_stays(left, right, c as nat, (c + 1) as nat);
    }
}

} // verus!
