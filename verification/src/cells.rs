//! The values that columns hold: byte strings and floating point numbers, with their orders.
use crate::total_ord::TotalOrd;
use core::cmp::Ordering;
use std::sync::Arc;
use vstd::prelude::*;
use vstd::std_specs::cmp::{PartialEqSpecImpl, PartialOrdSpecImpl};

verus! {

/// Calls `Arc::clone`. The new pointer refers to the same value.
#[verifier::external_body]
pub(crate) fn share<T>(x: &Arc<T>) -> (r: Arc<T>)
    ensures
        r == *x,
{
    Arc::clone(x)
}

/// A value that can be copied out of a column.
pub trait Cell: Sized {
    /// The same value once more.
    fn dup(&self) -> (r: Self)
        ensures
            r == *self,
    ;
}

impl Cell for bool {
    fn dup(&self) -> (r: Self) {
        *self
    }
}

impl Cell for u32 {
    fn dup(&self) -> (r: Self) {
        *self
    }
}

impl Cell for i128 {
    fn dup(&self) -> (r: Self) {
        *self
    }
}

impl Cell for u128 {
    fn dup(&self) -> (r: Self) {
        *self
    }
}

impl Cell for Float64 {
    fn dup(&self) -> (r: Self) {
        *self
    }
}

impl Cell for Bytes {
    fn dup(&self) -> (r: Self) {
        Bytes { data: share(&self.data) }
    }
}

impl<C: Cell> Cell for Option<C> {
    fn dup(&self) -> (r: Self) {
        match self {
            Some(c) => Some(c.dup()),
            None => None,
        }
    }
}

/// A shared byte string. Text is held by its UTF-8 bytes, which order as the text does.
#[derive(Debug)]
pub struct Bytes {
    pub data: Arc<Vec<u8>>,
}

impl View for Bytes {
    type V = Seq<u8>;

    open spec fn view(&self) -> Seq<u8> {
        self.data@
    }
}

/// `a` is at or before `b` in lexicographic order.
pub open spec fn lex_le(a: Seq<u8>, b: Seq<u8>) -> bool
    decreases a.len(),
{
    if a.len() == 0 {
        true
    } else if b.len() == 0 {
        false
    } else if a[0] == b[0] {
        lex_le(a.drop_first(), b.drop_first())
    } else {
        a[0] < b[0]
    }
}

/// Byte strings are ranked totally, and only equal ones rank the same.
pub proof fn lemma_lex(a: Seq<u8>, b: Seq<u8>, c: Seq<u8>)
    ensures
        lex_le(a, a),
        lex_le(a, b) || lex_le(b, a),
        lex_le(a, b) && lex_le(b, a) ==> a == b,
        lex_le(a, b) && lex_le(b, c) ==> lex_le(a, c),
    decreases a.len(),
{
    if a.len() > 0 {
        if b.len() > 0 {
            let c1 = if c.len() > 0 {
                c.drop_first()
            } else {
                c
            };
            lemma_lex(a.drop_first(), b.drop_first(), c1);
            if lex_le(a, b) && lex_le(b, a) {
                assert(a =~= seq![a[0]] + a.drop_first());
                assert(b =~= seq![b[0]] + b.drop_first());
            }
        } else {
            lemma_lex(a.drop_first(), b, c);
        }
    } else {
        assert(lex_le(b, a) ==> a =~= b);
    }
}

/// Whether `a` is at or before `b` in lexicographic order.
fn at_or_before(a: &Vec<u8>, b: &Vec<u8>) -> (r: bool)
    ensures
        r == lex_le(a@, b@),
{
    let mut i: usize = 0;
    proof {
        assert(a@.skip(0) =~= a@);
        assert(b@.skip(0) =~= b@);
    }
    while i < a.len() && i < b.len()
        invariant
            i <= a@.len(),
            i <= b@.len(),
            lex_le(a@.skip(i as int), b@.skip(i as int)) == lex_le(a@, b@),
        decreases a@.len() - i,
    {
        proof {
            assert(a@.skip(i as int).drop_first() =~= a@.skip(i + 1));
            assert(b@.skip(i as int).drop_first() =~= b@.skip(i + 1));
        }
        if a[i] != b[i] {
            return a[i] < b[i];
        }
        i += 1;
    }
    i == a.len()
}

impl PartialEq for Bytes {
    fn eq(&self, other: &Self) -> (r: bool) {
        proof {
            lemma_lex(self@, other@, self@);
        }
        at_or_before(&self.data, &other.data) && at_or_before(&other.data, &self.data)
    }
}

impl PartialEqSpecImpl for Bytes {
    open spec fn obeys_eq_spec() -> bool {
        true
    }

    open spec fn eq_spec(&self, other: &Self) -> bool {
        self@ == other@
    }
}

impl PartialOrd for Bytes {
    fn partial_cmp(&self, other: &Self) -> (r: Option<Ordering>) {
        if !at_or_before(&self.data, &other.data) {
            Some(Ordering::Greater)
        } else if at_or_before(&other.data, &self.data) {
            Some(Ordering::Equal)
        } else {
            Some(Ordering::Less)
        }
    }
}

impl PartialOrdSpecImpl for Bytes {
    open spec fn obeys_partial_cmp_spec() -> bool {
        true
    }

    open spec fn partial_cmp_spec(&self, other: &Self) -> Option<Ordering> {
        if !lex_le(self@, other@) {
            Some(Ordering::Greater)
        } else if lex_le(other@, self@) {
            Some(Ordering::Equal)
        } else {
            Some(Ordering::Less)
        }
    }
}

/// The bit that holds the sign of a floating point number.
pub const SIGN: u64 = 0x8000_0000_0000_0000;

/// The bits of positive infinity: above it come only the numbers that are none.
pub const INFINITY: u64 = 0x7ff0_0000_0000_0000;

/// A binary floating point number of double precision, held by its bits.
#[derive(Debug, Clone, Copy)]
pub struct Float64 {
    pub bits: u64,
}

impl Float64 {
    /// The bits without the sign.
    pub open spec fn magnitude(self) -> int {
        if self.bits >= SIGN {
            self.bits - SIGN
        } else {
            self.bits as int
        }
    }

    /// The bits stand for no number.
    pub open spec fn is_nan(self) -> bool {
        self.magnitude() > INFINITY
    }

    /// An integer that orders numbers as their values do. The two zeros share one, and so do all
    /// bits that stand for no number, which come last.
    pub open spec fn rank(self) -> int {
        if self.is_nan() {
            INFINITY + 1
        } else if self.bits >= SIGN {
            -self.magnitude()
        } else {
            self.magnitude()
        }
    }

    /// Computes `rank`.
    pub fn to_rank(&self) -> (r: i128)
        ensures
            r == self.rank(),
            self.bits <= 0x7ff0_0000_0000_0000 ==> r == self.bits,
            0x8000_0000_0000_0000 <= self.bits <= 0xfff0_0000_0000_0000 ==> r
                == 0x8000_0000_0000_0000 - self.bits,
            0x7ff0_0000_0000_0000 < self.bits < 0x8000_0000_0000_0000 || self.bits
                > 0xfff0_0000_0000_0000 ==> r == 0x7ff0_0000_0000_0001,
    {
        let negative: bool = self.bits >= SIGN;
        let magnitude: u64 = if negative {
            self.bits - SIGN
        } else {
            self.bits
        };
        if magnitude > INFINITY {
            INFINITY as i128 + 1
        } else if negative {
            -(magnitude as i128)
        } else {
            magnitude as i128
        }
    }
}

/// The total order of floating point numbers: all that are no number rank the same, after all
/// others, and the two zeros rank the same.
impl TotalOrd for Float64 {
    open spec fn ranks_le(self, other: Self) -> bool {
        self.rank() <= other.rank()
    }

    proof fn lemma_total(x: Self, y: Self) {
    }

    proof fn lemma_transitive(x: Self, y: Self, z: Self) {
    }

    fn tot_le(&self, other: &Self) -> (r: bool) {
        self.to_rank() <= other.to_rank()
    }
}

/// What is no number equals nothing, not even itself.
impl PartialEq for Float64 {
    fn eq(&self, other: &Self) -> (r: bool) {
        let x = self.to_rank();
        x == other.to_rank() && x <= 0x7ff0_0000_0000_0000i128
    }
}

impl PartialEqSpecImpl for Float64 {
    open spec fn obeys_eq_spec() -> bool {
        true
    }

    open spec fn eq_spec(&self, other: &Self) -> bool {
        !self.is_nan() && self.rank() == other.rank()
    }
}

/// What is no number is before nothing and after nothing.
impl PartialOrd for Float64 {
    fn partial_cmp(&self, other: &Self) -> (r: Option<Ordering>) {
        let x = self.to_rank();
        let y = other.to_rank();
        if x > 0x7ff0_0000_0000_0000i128 || y > 0x7ff0_0000_0000_0000i128 {
            None
        } else if x < y {
            Some(Ordering::Less)
        } else if x > y {
            Some(Ordering::Greater)
        } else {
            Some(Ordering::Equal)
        }
    }
}

impl PartialOrdSpecImpl for Float64 {
    open spec fn obeys_partial_cmp_spec() -> bool {
        true
    }

    open spec fn partial_cmp_spec(&self, other: &Self) -> Option<Ordering> {
        if self.is_nan() || other.is_nan() {
            None
        } else if self.rank() < other.rank() {
            Some(Ordering::Less)
        } else if self.rank() > other.rank() {
            Some(Ordering::Greater)
        } else {
            Some(Ordering::Equal)
        }
    }
}

} // verus!
