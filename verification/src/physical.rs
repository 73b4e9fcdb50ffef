//! Columns in their physical form, and back.
use crate::cells::{share, Cell};
use crate::frame::{
    codes, data_len, data_ok, fits, follows, physical_data, reads_nothing, refused, refused_among,
    same_data, same_validity, same_width, unmergeable, unmergeable_among, Data, MergeError, Series,
    StructData,
};
use crate::gather::{
    fields_at, has_null_rows, is_column_merge, merge_of, merge_series, plain, readable, row_counts,
    sources, storages, valid_rows, woven, woven_validity, Binaries, Booleans, Encodings, Floats,
    Ints, Physical, Strings, UInts,
};
use crate::merge::{lens, occurrences, uses_up, weave};
use crate::merge_laws::lemma_occurrences_step;
use vstd::prelude::*;

verus! {

/// `out` is the physical form of `s`: what stores it where its type is logical or categorical, with
/// the fields of a struct and the storage of an extension turned physical as well.
pub open spec fn turned(out: Series, s: Series) -> bool
    decreases s,
{
    match s.data {
        Data::Logical(x) => out.dtype == x.dtype && same_data(out.data, x.data),
        Data::Categorical(x, _) => out.dtype == x.dtype && same_data(out.data, x.data),
        Data::Struct(x) => match out.data {
            Data::Struct(y) => {
                &&& out.dtype == s.dtype
                &&& y.rows@ == x.rows@
                &&& same_validity(y.validity, x.validity)
                &&& y.fields@.len() == x.fields@.len()
                &&& forall|f: int|
                    0 <= f < x.fields@.len() ==> {
                        &&& y.fields@[f].name == x.fields@[f].name
                        &&& turned(y.fields@[f], #[trigger] x.fields@[f])
                    }
            },
            _ => false,
        },
        Data::Extension(x) => match out.data {
            Data::Extension(y) => out.dtype == s.dtype && turned(*y, *x),
            _ => false,
        },
        _ => out.dtype == s.dtype && same_data(out.data, s.data),
    }
}

/// Nothing in the column is of a logical type.
pub open spec fn is_physical(d: Data) -> bool
    decreases d,
{
    match d {
        Data::Logical(_) => false,
        Data::Categorical(_, _) => false,
        Data::Struct(s) => forall|f: int|
            0 <= f < s.fields@.len() ==> is_physical((#[trigger] s.fields@[f]).data),
        Data::Extension(s) => is_physical(s.data),
        _ => true,
    }
}

/// The physical form of the column is there, in the column or as the column itself.
pub open spec fn at_hand(d: Data) -> bool {
    d is Logical || d is Categorical || is_physical(d)
}

/// What is physical is its own physical form.
proof fn lemma_physical_turned(s: Series)
    requires
        is_physical(s.data),
    ensures
        turned(s, s),
    decreases s,
{
    match s.data {
        Data::Struct(x) => {
            assert forall|f: int| 0 <= f < x.fields@.len() implies turned(
                x.fields@[f],
                #[trigger] x.fields@[f],
            ) by {
                lemma_physical_turned(x.fields@[f]);
            }
        },
        Data::Extension(x) => {
            lemma_physical_turned(*x);
        },
        _ => {},
    }
}

/// Turning a column physical keeps it in order, with its rows, and leaves nothing logical.
pub proof fn lemma_turned(p: Series, s: Series)
    requires
        turned(p, s),
        s.wf(),
    ensures
        p.wf(),
        p.spec_len() == s.spec_len(),
        reads_nothing(p.data) == reads_nothing(s.data),
        refused(p) == unmergeable(s),
    decreases s, 0nat,
{
    reveal_with_fuel(data_len, 2);
    match (p.data, s.data) {
        (Data::Struct(y), Data::Struct(x)) => {
            assert forall|f: int| 0 <= f < x.fields@.len() implies (
            #[trigger] y.fields@[f]).wf() && y.fields@[f].spec_len() == x.fields@[f].spec_len() by {
                assert(turned(y.fields@[f], x.fields@[f]));
                lemma_turned(y.fields@[f], x.fields@[f]);
            }
            lemma_turned_among(y.fields, x.fields, x.fields@.len());
        },
        (Data::Extension(y), Data::Extension(x)) => {
            lemma_turned(*y, *x);
        },
        _ => {},
    }
}

proof fn lemma_turned_among(ys: Vec<Series>, xs: Vec<Series>, n: nat)
    requires
        ys@.len() == xs@.len(),
        n <= xs@.len(),
        forall|f: int| 0 <= f < xs@.len() ==> turned(ys@[f], #[trigger] xs@[f]),
        forall|f: int| 0 <= f < xs@.len() ==> (#[trigger] xs@[f]).wf(),
    ensures
        refused_among(ys, n) == unmergeable_among(xs, n),
    decreases xs, n,
{
    if n > 0 {
        lemma_turned_among(ys, xs, (n - 1) as nat);
        assert(turned(ys@[n - 1], xs@[n - 1]));
        lemma_turned(ys@[n - 1], xs@[n - 1]);
    }
}

/// Columns that can be merged can be merged as they stand once they are turned physical.
proof fn lemma_turned_follows(p: Series, q: Series, s: Series, t: Series)
    requires
        turned(p, s),
        turned(q, t),
        s.wf(),
        t.wf(),
        follows(s.data, t.data),
    ensures
        fits(p.data, q.data),
    decreases s,
{
    match (s.data, t.data, p.data, q.data) {
        (Data::Struct(x), Data::Struct(y), Data::Struct(u), Data::Struct(v)) => {
            assert forall|f: int| 0 <= f < u.fields@.len() implies fits(
                (#[trigger] u.fields@[f]).data,
                v.fields@[f].data,
            ) by {
                assert(turned(u.fields@[f], x.fields@[f]));
                assert(turned(v.fields@[f], y.fields@[f]));
                assert(follows(x.fields@[f].data, y.fields@[f].data));
                lemma_turned_follows(u.fields@[f], v.fields@[f], x.fields@[f], y.fields@[f]);
            }
        },
        (Data::Extension(x), Data::Extension(y), Data::Extension(u), Data::Extension(v)) => {
            lemma_turned_follows(*u, *v, *x, *y);
        },
        _ => {},
    }
}

/// Turning columns physical keeps the width that they are stored in.
proof fn lemma_turned_width(p: Series, q: Series, s: Series, t: Series)
    requires
        turned(p, s),
        turned(q, t),
        s.wf(),
        t.wf(),
        follows(s.data, t.data),
        same_width(s, t),
    ensures
        same_width(p, q),
    decreases s,
{
    match (s.data, t.data, p.data, q.data) {
        (Data::Struct(x), Data::Struct(y), Data::Struct(u), Data::Struct(v)) => {
            assert forall|f: int| 0 <= f < u.fields@.len() implies same_width(
                #[trigger] u.fields@[f],
                v.fields@[f],
            ) by {
                assert(turned(u.fields@[f], x.fields@[f]));
                assert(turned(v.fields@[f], y.fields@[f]));
                assert(follows(x.fields@[f].data, y.fields@[f].data));
                assert(same_width(x.fields@[f], y.fields@[f]));
                lemma_turned_width(u.fields@[f], v.fields@[f], x.fields@[f], y.fields@[f]);
            }
        },
        (Data::Extension(x), Data::Extension(y), Data::Extension(u), Data::Extension(v)) => {
            lemma_turned_width(*u, *v, *x, *y);
        },
        _ => {},
    }
}

/// The merge of columns can be read off once they are turned physical: they are of the physical
/// kind and width of the first one, and the order names each of them once per row.
pub open spec fn joinable(ss: Seq<Series>, order: Seq<u8>) -> bool {
    &&& 0 < ss.len()
    &&& forall|k: int| 0 <= k < ss.len() ==> (#[trigger] ss[k]).wf()
    &&& forall|k: int| 0 <= k < ss.len() ==> follows(ss[0].data, (#[trigger] ss[k]).data)
    &&& forall|k: int| 0 <= k < ss.len() ==> same_width(ss[0], #[trigger] ss[k])
    &&& reads_nothing(ss[0].data) || uses_up(row_counts(ss), order)
}

/// The fields of struct columns that can be merged can be merged.
pub proof fn lemma_fields_joinable(ss: Seq<Series>, order: Seq<u8>, f: int)
    requires
        joinable(ss, order),
        ss[0].data is Struct,
        0 <= f < ss[0].data->Struct_0.fields@.len(),
    ensures
        joinable(fields_at(ss, f), order),
{
    let fs = fields_at(ss, f);
    assert forall|k: int| 0 <= k < ss.len() implies (#[trigger] fs[k]).wf() && follows(
        fs[0].data,
        fs[k].data,
    ) && same_width(fs[0], fs[k]) && row_counts(fs)[k] == row_counts(ss)[k] by {
        assert(ss[k].wf());
        assert(follows(ss[0].data, ss[k].data) && same_width(ss[0], ss[k]));
        let x = ss[0].data->Struct_0;
        assert(x.fields@[f] == fs[0]);
        assert(ss[k].data->Struct_0.fields@[f] == fs[k]);
    }
    assert(row_counts(fs) =~= row_counts(ss));
}

/// What stores extension columns that can be merged can be merged.
pub proof fn lemma_storages_joinable(ss: Seq<Series>, order: Seq<u8>)
    requires
        joinable(ss, order),
        ss[0].data is Extension,
    ensures
        joinable(storages(ss), order),
{
    let st = storages(ss);
    assert forall|k: int| 0 <= k < ss.len() implies (#[trigger] st[k]).wf() && follows(
        st[0].data,
        st[k].data,
    ) && same_width(st[0], st[k]) && row_counts(st)[k] == row_counts(ss)[k] by {
        assert(ss[k].wf());
        assert(follows(ss[0].data, ss[k].data) && same_width(ss[0], ss[k]));
    }
    assert(row_counts(st) =~= row_counts(ss));
}

/// What can be read off columns can be read off their physical forms.
proof fn lemma_turned_readable(ps: Seq<Series>, ss: Seq<Series>, order: Seq<u8>)
    requires
        joinable(ss, order),
        ps.len() == ss.len(),
        forall|k: int| 0 <= k < ss.len() ==> turned(#[trigger] ps[k], ss[k]),
    ensures
        readable(ps, order),
        refused(ps[0]) == unmergeable(ss[0]),
{
    assert forall|k: int| 0 <= k < ps.len() implies (#[trigger] ps[k]).wf() && fits(
        ps[0].data,
        ps[k].data,
    ) && same_width(ps[0], ps[k]) && row_counts(ps)[k] == row_counts(ss)[k] by {
        assert(turned(ps[0], ss[0]) && turned(ps[k], ss[k]));
        assert(ss[0].wf() && ss[k].wf());
        assert(follows(ss[0].data, ss[k].data));
        assert(same_width(ss[0], ss[k]));
        lemma_turned(ps[k], ss[k]);
        lemma_turned_follows(ps[0], ps[k], ss[0], ss[k]);
        lemma_turned_width(ps[0], ps[k], ss[0], ss[k]);
    }
    assert(row_counts(ps) =~= row_counts(ss));
    assert(turned(ps[0], ss[0]) && ss[0].wf());
    lemma_turned(ps[0], ss[0]);
}

/// The same cells once more.
fn dup_all<C: Cell>(v: &Vec<C>) -> (out: Vec<C>)
    ensures
        out@ == v@,
{
    let mut out: Vec<C> = Vec::with_capacity(v.len());
    let mut i: usize = 0;
    while i < v.len()
        invariant
            i <= v@.len(),
            out@ == v@.take(i as int),
        decreases v@.len() - i,
    {
        out.push(v[i].dup());
        i += 1;
    }
    proof {
        assert(out@ =~= v@);
    }
    out
}

impl Series {
    /// Whether nothing in the column is of a logical type.
    pub fn is_physical_repr(&self) -> (r: bool)
        ensures
            r == is_physical(self.data),
        decreases self,
    {
        match &self.data {
            Data::Logical(_) => false,
            Data::Categorical(_, _) => false,
            Data::Struct(s) => {
                let mut f: usize = 0;
                while f < s.fields.len()
                    invariant
                        f <= s.fields@.len(),
                        self.data == Data::Struct(*s),
                        forall|g: int| 0 <= g < f ==> is_physical((#[trigger] s.fields@[g]).data),
                    decreases s.fields@.len() - f,
                {
                    proof {
                        assert(decreases_to!(self => self.data));
                        assert(decreases_to!(self.data => self.data->Struct_0));
                        assert(decreases_to!(s => s.fields));
                        assert(decreases_to!(s.fields => s.fields[f as int]));
                    }
                    if !s.fields[f].is_physical_repr() {
                        return false;
                    }
                    f += 1;
                }
                true
            },
            Data::Extension(s) => s.is_physical_repr(),
            _ => true,
        }
    }

    /// The physical form of the column where it is at hand.
    fn physical_ref(&self) -> (r: Option<&Series>)
        requires
            self.wf(),
        ensures
            r is Some <==> at_hand(self.data),
            r matches Some(p) ==> turned(*p, *self),
    {
        match &self.data {
            Data::Logical(s) => Some(s),
            Data::Categorical(s, _) => Some(s),
            _ => {
                if self.is_physical_repr() {
                    proof {
                        lemma_physical_turned(*self);
                    }
                    Some(self)
                } else {
                    None
                }
            },
        }
    }

    /// The physical form of the column.
    pub fn to_physical_repr(&self) -> (r: Series)
        requires
            self.wf(),
        ensures
            turned(r, *self),
            r.name == self.name,
        decreases self,
    {
        let data: Data = match &self.data {
            Data::Null(n) => Data::Null(*n),
            Data::Boolean(v) => Data::Boolean(dup_all(v)),
            Data::Int(v) => Data::Int(dup_all(v)),
            Data::UInt(v) => Data::UInt(dup_all(v)),
            Data::Float(v) => Data::Float(dup_all(v)),
            Data::String(v) => Data::String(dup_all(v)),
            Data::Binary(v) => Data::Binary(dup_all(v)),
            Data::BinaryOffset(v) => Data::BinaryOffset(dup_all(v)),
            Data::Rows(v) => Data::Rows(dup_all(v)),
            Data::Logical(s) => {
                let inner = s.to_physical_repr();
                return Series { name: self.name.clone(), dtype: inner.dtype, data: inner.data };
            },
            Data::Categorical(s, _) => {
                let inner = s.to_physical_repr();
                return Series { name: self.name.clone(), dtype: inner.dtype, data: inner.data };
            },
            Data::Struct(s) => {
                let mut fields: Vec<Series> = Vec::with_capacity(s.fields.len());
                let mut f: usize = 0;
                while f < s.fields.len()
                    invariant
                        f <= s.fields@.len(),
                        self.wf(),
                        self.data == Data::Struct(*s),
                        fields@.len() == f,
                        forall|g: int|
                            0 <= g < f ==> {
                                &&& fields@[g].name == s.fields@[g].name
                                &&& turned(fields@[g], #[trigger] s.fields@[g])
                            },
                    decreases s.fields@.len() - f,
                {
                    proof {
                        assert(decreases_to!(self => self.data));
                        assert(decreases_to!(self.data => self.data->Struct_0));
                        assert(decreases_to!(s => s.fields));
                        assert(decreases_to!(s.fields => s.fields[f as int]));
                    }
                    fields.push(s.fields[f].to_physical_repr());
                    f += 1;
                }
                let validity: Option<Vec<bool>> = match &s.validity {
                    Some(v) => Some(dup_all(v)),
                    None => None,
                };
                Data::Struct(StructData { fields, validity, rows: dup_all(&s.rows) })
            },
            Data::Extension(s) => Data::Extension(Box::new(s.to_physical_repr())),
            Data::Opaque(n) => Data::Opaque(*n),
        };
        Series { name: self.name.clone(), dtype: self.dtype.clone(), data }
    }
}

/// Columns with the same cells are the same sources.
pub proof fn lemma_same_sources<P: Physical>(ps: Seq<Series>, ss: Seq<Series>)
    requires
        ps.len() == ss.len(),
        forall|k: int|
            0 <= k < ss.len() ==> P::cells((#[trigger] ps[k]).data) == P::cells(ss[k].data),
    ensures
        sources::<P>(ps) == sources::<P>(ss),
{
    assert(sources::<P>(ps) =~= sources::<P>(ss));
}

/// Merged codes have names.
proof fn lemma_codes_named(ss: Seq<Series>, order: Seq<u8>)
    requires
        joinable(ss, order),
        ss[0].data is Categorical,
    ensures
        forall|p: int|
            0 <= p < order.len() ==> ((#[trigger] weave(
                sources::<UInts>(ss),
                order,
            )[p]) matches Some(c) ==> c < ss[0].data->Categorical_1@.len()),
{
    let views = sources::<UInts>(ss);
    assert forall|k: int| 0 <= k < ss.len() implies #[trigger] lens(views)[k] == row_counts(
        ss,
    )[k] by {
        assert(follows(ss[0].data, ss[k].data));
        UInts::lemma_len(ss[k].data);
    }
    assert(lens(views) =~= row_counts(ss));
    assert forall|p: int| 0 <= p < order.len() implies ((#[trigger] weave(
        views,
        order,
    )[p]) matches Some(c) ==> c < ss[0].data->Categorical_1@.len()) by {
        let k = order[p] as int;
        assert(order[p] < lens(views).len());
        lemma_occurrences_step(order, p, order[p]);
        assert(occurrences(order, order[p]) == lens(views)[k]);
        assert(follows(ss[0].data, ss[k].data));
        let i = occurrences(order.take(p), order[p]) as int;
        assert(views[k][i] == codes(physical_data(ss[k].data))[i]);
    }
}

/// The merge of the physical forms of columns holds the cells of the columns.
proof fn lemma_merge_of_turned(m: Data, ps: Seq<Series>, ss: Seq<Series>, order: Seq<u8>)
    requires
        joinable(ss, order),
        ps.len() == ss.len(),
        forall|k: int| 0 <= k < ss.len() ==> turned(#[trigger] ps[k], ss[k]),
        merge_of(m, ps, order),
    ensures
        ss[0].data is Logical ==> m is Int && woven::<Ints>(m, ss, order),
        ss[0].data is Categorical ==> m is UInt && woven::<UInts>(m, ss, order),
        !(ss[0].data is Logical || ss[0].data is Categorical || ss[0].data is Struct
            || ss[0].data is Extension) ==> merge_of(m, ss, order),
{
    assert forall|k: int| 0 <= k < ss.len() implies turned(#[trigger] ps[k], ss[k]) && follows(
        ss[0].data,
        ss[k].data,
    ) && ss[k].wf() by {
        assert(ss[k].wf() && follows(ss[0].data, ss[k].data));
    }
    assert(turned(ps[0], ss[0]));
    match ss[0].data {
        Data::Logical(_) => {
            lemma_same_sources::<Ints>(ps, ss);
        },
        Data::Categorical(_, _) => {
            lemma_same_sources::<UInts>(ps, ss);
        },
        Data::Boolean(_) => {
            lemma_same_sources::<Booleans>(ps, ss);
        },
        Data::Int(_) => {
            lemma_same_sources::<Ints>(ps, ss);
        },
        Data::UInt(_) => {
            lemma_same_sources::<UInts>(ps, ss);
        },
        Data::Float(_) => {
            lemma_same_sources::<Floats>(ps, ss);
        },
        Data::String(_) => {
            lemma_same_sources::<Strings>(ps, ss);
        },
        Data::Binary(_) => {
            lemma_same_sources::<Binaries>(ps, ss);
        },
        Data::Rows(_) => {
            lemma_same_sources::<Encodings>(ps, ss);
        },
        _ => {},
    }
}

/// The rows of struct columns, and which of them are null, are those of their physical forms.
proof fn lemma_turned_rows(ps: Seq<Series>, ss: Seq<Series>, order: Seq<u8>)
    requires
        joinable(ss, order),
        ps.len() == ss.len(),
        forall|k: int| 0 <= k < ss.len() ==> turned(#[trigger] ps[k], ss[k]),
        ss[0].data is Struct,
    ensures
        sources::<Encodings>(ps) == sources::<Encodings>(ss),
        forall|out: Option<Vec<bool>>| #[trigger]
            woven_validity(out, ps, order) ==> woven_validity(out, ss, order),
{
    assert forall|k: int| 0 <= k < ss.len() implies ps[k].data is Struct && ss[k].data is Struct
        && valid_rows((#[trigger] ps[k]).data) == valid_rows(ss[k].data) by {
        assert(turned(ps[k], ss[k]));
        assert(follows(ss[0].data, ss[k].data));
        assert(valid_rows(ps[k].data) =~= valid_rows(ss[k].data));
    }
    lemma_same_sources::<Encodings>(ps, ss);
    assert(Seq::new(ps.len(), |k: int| valid_rows(ps[k].data)) =~= Seq::new(
        ss.len(),
        |k: int| valid_rows(ss[k].data),
    ));
    assert((exists|k: int| 0 <= k < ps.len() && has_null_rows(#[trigger] ps[k].data)) == (exists|
        k: int,
    |
        0 <= k < ss.len() && has_null_rows(#[trigger] ss[k].data))) by {
        if exists|k: int| 0 <= k < ps.len() && has_null_rows(#[trigger] ps[k].data) {
            let k = choose|k: int| 0 <= k < ps.len() && has_null_rows(#[trigger] ps[k].data);
            assert(valid_rows(ps[k].data) == valid_rows(ss[k].data));
            assert(has_null_rows(ss[k].data));
        }
        if exists|k: int| 0 <= k < ss.len() && has_null_rows(#[trigger] ss[k].data) {
            let k = choose|k: int| 0 <= k < ss.len() && has_null_rows(#[trigger] ss[k].data);
            assert(valid_rows(ps[k].data) == valid_rows(ss[k].data));
            assert(has_null_rows(ps[k].data));
        }
    }
}

/// The column of the type and name of `t` that `m` is the physical form of, where `m` was merged
/// from the physical forms `ps` of the columns `ss`.
fn from_physical(
    t: &Series,
    m: Series,
    Ghost(ps): Ghost<Seq<Series>>,
    Ghost(ss): Ghost<Seq<Series>>,
    Ghost(order): Ghost<Seq<u8>>,
) -> (out: Series)
    requires
        joinable(ss, order),
        *t == ss[0],
        ps.len() == ss.len(),
        forall|k: int| 0 <= k < ss.len() ==> turned(#[trigger] ps[k], ss[k]),
        m.dtype == ps[0].dtype,
        merge_of(m.data, ps, order),
        m.wf(),
        m.spec_len() == order.len(),
    ensures
        is_column_merge(out, ss, order),
        out.wf(),
        out.spec_len() == order.len(),
    decreases t,
{
    let ghost merged = m.data;
    proof {
        assert(turned(ps[0], ss[0]) && ss[0].wf());
        lemma_merge_of_turned(m.data, ps, ss, order);
        reveal_with_fuel(data_len, 2);
    }
    let data: Data = match (&t.data, m.data) {
        (Data::Logical(_), stored) => {
            Data::Logical(Box::new(Series { name: "".to_owned(), dtype: m.dtype, data: stored }))
        },
        (Data::Categorical(_, names), stored) => {
            proof {
                lemma_codes_named(ss, order);
            }
            Data::Categorical(
                Box::new(Series { name: "".to_owned(), dtype: m.dtype, data: stored }),
                share(names),
            )
        },
        (Data::Struct(s), Data::Struct(x)) => {
            let mut rest: Vec<Series> = x.fields;
            let mut fields: Vec<Series> = Vec::with_capacity(s.fields.len());
            let mut f: usize = 0;
            proof {
                lemma_turned_rows(ps, ss, order);
                assert(rest@ =~= x.fields@.skip(0));
            }
            while f < s.fields.len()
                invariant
                    joinable(ss, order),
                    *t == ss[0],
                    t.data == Data::Struct(*s),
                    ps.len() == ss.len(),
                    forall|k: int| 0 <= k < ss.len() ==> turned(#[trigger] ps[k], ss[k]),
                    merged == Data::Struct(x),
                    merge_of(merged, ps, order),
                    data_ok(merged),
                    data_len(merged) == order.len(),
                    x.fields@.len() == s.fields@.len(),
                    f <= s.fields@.len(),
                    rest@ == x.fields@.skip(f as int),
                    fields@.len() == f,
                    forall|g: int|
                        0 <= g < f ==> {
                            &&& is_column_merge(#[trigger] fields@[g], fields_at(ss, g), order)
                            &&& fields@[g].wf()
                            &&& fields@[g].spec_len() == order.len()
                        },
                decreases s.fields@.len() - f,
            {
                let ghost pf = fields_at(ps, f as int);
                let ghost sf = fields_at(ss, f as int);
                proof {
                    lemma_fields_joinable(ss, order, f as int);
                    assert(sf[0] == s.fields@[f as int]);
                    assert forall|k: int| 0 <= k < sf.len() implies turned(
                        #[trigger] pf[k],
                        sf[k],
                    ) by {
                        assert(turned(ps[k], ss[k]));
                        assert(follows(ss[0].data, ss[k].data));
                        let y = ss[k].data->Struct_0;
                        assert(turned(ps[k].data->Struct_0.fields@[f as int], y.fields@[f as int]));
                    }
                    let field = x.fields@[f as int];
                    assert(rest@[0] == field);
                    assert(data_ok(field.data));
                    assert(decreases_to!(t => t.data));
                    assert(decreases_to!(t.data => t.data->Struct_0));
                    assert(decreases_to!(s => s.fields));
                    assert(decreases_to!(s.fields => s.fields[f as int]));
                }
                let field = rest.remove(0);
                fields.push(
                    from_physical(&s.fields[f], field, Ghost(pf), Ghost(sf), Ghost(order)),
                );
                proof {
                    assert(rest@ =~= x.fields@.skip(f + 1));
                }
                f += 1;
            }
            Data::Struct(StructData { fields, validity: x.validity, rows: x.rows })
        },
        (Data::Extension(s), Data::Extension(x)) => {
            let ghost pst = storages(ps);
            let ghost sst = storages(ss);
            proof {
                lemma_storages_joinable(ss, order);
                assert(sst[0] == **s);
                assert forall|k: int| 0 <= k < sst.len() implies turned(
                    #[trigger] pst[k],
                    sst[k],
                ) by {
                    assert(turned(ps[k], ss[k]));
                    assert(follows(ss[0].data, ss[k].data));
                }
            }
            let inner = from_physical(s, *x, Ghost(pst), Ghost(sst), Ghost(order));
            Data::Extension(
                Box::new(Series { name: "".to_owned(), dtype: inner.dtype, data: inner.data }),
            )
        },
        (_, other) => other,
    };
    Series { name: t.name.clone(), dtype: t.dtype.clone(), data }
}

/// Merges columns along `merge_indicator`: in their physical form, of which the merged column is
/// turned back to the type and given the name of the first one.
pub(crate) fn merge_logical(ss: &Vec<&Series>, merge_indicator: &Vec<u8>) -> (res: Result<
    Series,
    MergeError,
>)
    requires
        joinable(plain(ss@), merge_indicator@),
    ensures
        match unmergeable(*ss@[0]) {
            Some(dtype) => res == Err::<Series, MergeError>(MergeError::Unsupported { dtype }),
            None => {
                &&& res is Ok
                &&& is_column_merge(res->Ok_0, plain(ss@), merge_indicator@)
                &&& res->Ok_0.wf()
                &&& res->Ok_0.spec_len() == merge_indicator@.len()
            },
        },
{
    let ghost all = plain(ss@);
    let ghost order = merge_indicator@;
    proof {
        assert forall|k: int| 0 <= k < ss@.len() implies (#[trigger] ss@[k]).wf() by {
            assert(all[k].wf());
        }
    }
    let mut made: Vec<Option<Series>> = Vec::with_capacity(ss.len());
    let mut k: usize = 0;
    while k < ss.len()
        invariant
            k <= ss@.len(),
            made@.len() == k,
            forall|j: int| 0 <= j < ss@.len() ==> (#[trigger] ss@[j]).wf(),
            forall|j: int|
                0 <= j < k ==> match #[trigger] made@[j] {
                    Some(p) => turned(p, *ss@[j]),
                    None => at_hand(ss@[j].data),
                },
        decreases ss@.len() - k,
    {
        made.push(
            match ss[k].physical_ref() {
                Some(_) => None,
                None => Some(ss[k].to_physical_repr()),
            },
        );
        k += 1;
    }
    let mut phys_ss: Vec<&Series> = Vec::with_capacity(ss.len());
    let mut j: usize = 0;
    while j < ss.len()
        invariant
            j <= ss@.len(),
            made@.len() == ss@.len(),
            phys_ss@.len() == j,
            forall|i: int| 0 <= i < ss@.len() ==> (#[trigger] ss@[i]).wf(),
            forall|i: int|
                0 <= i < ss@.len() ==> match #[trigger] made@[i] {
                    Some(p) => turned(p, *ss@[i]),
                    None => at_hand(ss@[i].data),
                },
            forall|i: int| 0 <= i < j ==> turned(*(#[trigger] phys_ss@[i]), *ss@[i]),
        decreases ss@.len() - j,
    {
        phys_ss.push(
            match &made[j] {
                Some(p) => p,
                None => match ss[j].physical_ref() {
                    Some(p) => p,
                    None => ss[j],
                },
            },
        );
        j += 1;
    }
    let ghost ps = plain(phys_ss@);
    proof {
        assert forall|i: int| 0 <= i < all.len() implies turned(#[trigger] ps[i], all[i]) by {
            assert(turned(*phys_ss@[i], *ss@[i]));
        }
        lemma_turned_readable(ps, all, order);
    }
    match merge_series(&phys_ss, merge_indicator) {
        Ok(merged) => Ok(from_physical(ss[0], merged, Ghost(ps), Ghost(all), Ghost(order))),
        Err(e) => Err(e),
    }
}

/// A merged column has one row per place of the order.
pub proof fn law_merged_column_len(out: Data, ss: Seq<Series>, order: Seq<u8>)
    requires
        merge_of(out, ss, order),
        ss.len() > 0,
    ensures
        data_len(out) == order.len(),
    decreases out,
{
    reveal_with_fuel(data_len, 2);
    match (out, ss[0].data) {
        (Data::Extension(o), Data::Extension(_)) => {
            law_merged_column_len(o.data, storages(ss), order);
        },
        _ => {},
    }
}

/// A merge of columns in order is in order.
pub proof fn lemma_merged_ok(out: Data, ss: Seq<Series>, order: Seq<u8>)
    requires
        joinable(ss, order),
        merge_of(out, ss, order),
    ensures
        data_ok(out),
    decreases out,
{
    assert(ss[0].wf());
    match (out, ss[0].data) {
        (Data::Categorical(o, names), Data::Categorical(_, _)) => {
            lemma_codes_named(ss, order);
        },
        (Data::Struct(o), Data::Struct(_)) => {
            assert forall|f: int| 0 <= f < o.fields@.len() implies data_ok(
                (#[trigger] o.fields@[f]).data,
            ) && o.fields@[f].spec_len() == order.len() by {
                lemma_fields_joinable(ss, order, f);
                lemma_merged_ok(o.fields@[f].data, fields_at(ss, f), order);
                law_merged_column_len(o.fields@[f].data, fields_at(ss, f), order);
            }
        },
        (Data::Extension(o), Data::Extension(_)) => {
            lemma_storages_joinable(ss, order);
            lemma_merged_ok(o.data, storages(ss), order);
        },
        _ => {},
    }
}

} // verus!
