//! Total orders on items, with ties allowed between items that are not the same.
use core::cmp::Ordering;
use vstd::prelude::*;

verus! {

/// A total order in which two different items may rank the same.
pub trait TotalOrd: Sized {
    /// `self` ranks at or before `other`.
    spec fn ranks_le(self, other: Self) -> bool;

    /// Any two items can be ranked.
    proof fn lemma_total(x: Self, y: Self)
        ensures
            x.ranks_le(y) || y.ranks_le(x),
    ;

    /// Ranking is transitive.
    proof fn lemma_transitive(x: Self, y: Self, z: Self)
        requires
            x.ranks_le(y),
            y.ranks_le(z),
        ensures
            x.ranks_le(z),
    ;

    /// Whether `self` ranks at or before `other`.
    fn tot_le(&self, other: &Self) -> (r: bool)
        ensures
            r == self.ranks_le(*other),
    ;

    /// How `self` ranks against `other`.
    fn tot_cmp(&self, other: &Self) -> (r: Ordering)
        ensures
            r == Ordering::Less <==> !other.ranks_le(*self),
            r == Ordering::Greater <==> !self.ranks_le(*other),
    {
        proof {
            Self::lemma_total(*self, *other);
        }
        if !self.tot_le(other) {
            Ordering::Greater
        } else if other.tot_le(self) {
            Ordering::Equal
        } else {
            Ordering::Less
        }
    }
}

/// Ranking as a function value.
pub open spec fn rank_order<T: TotalOrd>() -> spec_fn(T, T) -> bool {
    |x: T, y: T| x.ranks_le(y)
}

/// Ranking is a total preorder.
pub proof fn lemma_rank_order<T: TotalOrd>()
    ensures
        crate::merge::total_preorder(rank_order::<T>()),
{
    let le = rank_order::<T>();
    assert forall|x: T, y: T| #[trigger] le(x, y) || le(y, x) by {
        T::lemma_total(x, y);
    }
    assert forall|x: T, y: T, z: T| #[trigger] le(x, y) && #[trigger] le(y, z) implies le(
        x,
        z,
    ) by {
        T::lemma_transitive(x, y, z);
    }
}

impl TotalOrd for u8 {
    open spec fn ranks_le(self, other: Self) -> bool {
        self <= other
    }

    proof fn lemma_total(x: Self, y: Self) {
    }

    proof fn lemma_transitive(x: Self, y: Self, z: Self) {
    }

    fn tot_le(&self, other: &Self) -> (r: bool) {
        *self <= *other
    }
}

impl TotalOrd for u16 {
    open spec fn ranks_le(self, other: Self) -> bool {
        self <= other
    }

    proof fn lemma_total(x: Self, y: Self) {
    }

    proof fn lemma_transitive(x: Self, y: Self, z: Self) {
    }

    fn tot_le(&self, other: &Self) -> (r: bool) {
        *self <= *other
    }
}

impl TotalOrd for u32 {
    open spec fn ranks_le(self, other: Self) -> bool {
        self <= other
    }

    proof fn lemma_total(x: Self, y: Self) {
    }

    proof fn lemma_transitive(x: Self, y: Self, z: Self) {
    }

    fn tot_le(&self, other: &Self) -> (r: bool) {
        *self <= *other
    }
}

impl TotalOrd for u64 {
    open spec fn ranks_le(self, other: Self) -> bool {
        self <= other
    }

    proof fn lemma_total(x: Self, y: Self) {
    }

    proof fn lemma_transitive(x: Self, y: Self, z: Self) {
    }

    fn tot_le(&self, other: &Self) -> (r: bool) {
        *self <= *other
    }
}

impl TotalOrd for u128 {
    open spec fn ranks_le(self, other: Self) -> bool {
        self <= other
    }

    proof fn lemma_total(x: Self, y: Self) {
    }

    proof fn lemma_transitive(x: Self, y: Self, z: Self) {
    }

    fn tot_le(&self, other: &Self) -> (r: bool) {
        *self <= *other
    }
}

impl TotalOrd for usize {
    open spec fn ranks_le(self, other: Self) -> bool {
        self <= other
    }

    proof fn lemma_total(x: Self, y: Self) {
    }

    proof fn lemma_transitive(x: Self, y: Self, z: Self) {
    }

    fn tot_le(&self, other: &Self) -> (r: bool) {
        *self <= *other
    }
}

impl TotalOrd for i8 {
    open spec fn ranks_le(self, other: Self) -> bool {
        self <= other
    }

    proof fn lemma_total(x: Self, y: Self) {
    }

    proof fn lemma_transitive(x: Self, y: Self, z: Self) {
    }

    fn tot_le(&self, other: &Self) -> (r: bool) {
        *self <= *other
    }
}

impl TotalOrd for i16 {
    open spec fn ranks_le(self, other: Self) -> bool {
        self <= other
    }

    proof fn lemma_total(x: Self, y: Self) {
    }

    proof fn lemma_transitive(x: Self, y: Self, z: Self) {
    }

    fn tot_le(&self, other: &Self) -> (r: bool) {
        *self <= *other
    }
}

impl TotalOrd for i32 {
    open spec fn ranks_le(self, other: Self) -> bool {
        self <= other
    }

    proof fn lemma_total(x: Self, y: Self) {
    }

    proof fn lemma_transitive(x: Self, y: Self, z: Self) {
    }

    fn tot_le(&self, other: &Self) -> (r: bool) {
        *self <= *other
    }
}

impl TotalOrd for i64 {
    open spec fn ranks_le(self, other: Self) -> bool {
        self <= other
    }

    proof fn lemma_total(x: Self, y: Self) {
    }

    proof fn lemma_transitive(x: Self, y: Self, z: Self) {
    }

    fn tot_le(&self, other: &Self) -> (r: bool) {
        *self <= *other
    }
}

impl TotalOrd for i128 {
    open spec fn ranks_le(self, other: Self) -> bool {
        self <= other
    }

    proof fn lemma_total(x: Self, y: Self) {
    }

    proof fn lemma_transitive(x: Self, y: Self, z: Self) {
    }

    fn tot_le(&self, other: &Self) -> (r: bool) {
        *self <= *other
    }
}

impl TotalOrd for isize {
    open spec fn ranks_le(self, other: Self) -> bool {
        self <= other
    }

    proof fn lemma_total(x: Self, y: Self) {
    }

    proof fn lemma_transitive(x: Self, y: Self, z: Self) {
    }

    fn tot_le(&self, other: &Self) -> (r: bool) {
        *self <= *other
    }
}

/// `false` ranks before `true`.
impl TotalOrd for bool {
    open spec fn ranks_le(self, other: Self) -> bool {
        self ==> other
    }

    proof fn lemma_total(x: Self, y: Self) {
    }

    proof fn lemma_transitive(x: Self, y: Self, z: Self) {
    }

    fn tot_le(&self, other: &Self) -> (r: bool) {
        !*self || *other
    }
}

} // verus!
