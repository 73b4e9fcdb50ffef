//! What a quantile sketch holds, and how one item changes it.
use crate::capacity::{capacity, threshold, MAX_DEPTH};
use crate::merge::{merged, sorted};
use crate::total_ord::{rank_order, TotalOrd};
use vstd::arithmetic::power2::pow2;
use vstd::prelude::*;

verus! {

/// The contents of a sketch. `levels[0]` is the bottom compactor, which takes the items in as
/// they come; an item of `levels[h]` stands for `2^h` items of the stream.
pub struct SketchView<T> {
    pub levels: Seq<Seq<T>>,
    /// The items taken in so far.
    pub consumed: nat,
    /// The items the compactors may hold together.
    pub max_items: nat,
    /// The capacity of the top compactor.
    pub k: nat,
}

/// `f` of each level, with its height, summed up.
pub open spec fn sum_levels<T>(levels: Seq<Seq<T>>, f: spec_fn(int, Seq<T>) -> int) -> int
    decreases levels.len(),
{
    if levels.len() == 0 {
        0
    } else {
        sum_levels(levels.drop_last(), f) + f(levels.len() - 1, levels.last())
    }
}

/// The items that one level stands for.
pub open spec fn level_weight<T>() -> spec_fn(int, Seq<T>) -> int {
    |h: int, s: Seq<T>| (s.len() * pow2(h as nat)) as int
}

/// The items that one level holds.
pub open spec fn level_size<T>() -> spec_fn(int, Seq<T>) -> int {
    |h: int, s: Seq<T>| s.len() as int
}

/// The items of the stream that one level says rank at or before `x`.
pub open spec fn level_rank<T: TotalOrd>(x: T) -> spec_fn(int, Seq<T>) -> int {
    |h: int, s: Seq<T>| (count_le(s, x) * pow2(h as nat)) as int
}

/// The items of `s` that rank at or before `x`.
pub open spec fn count_le<T: TotalOrd>(s: Seq<T>, x: T) -> nat
    decreases s.len(),
{
    if s.len() == 0 {
        0
    } else {
        count_le(s.drop_last(), x) + if s.last().ranks_le(x) {
            1nat
        } else {
            0nat
        }
    }
}

/// The items of the stream that the levels stand for.
pub open spec fn weight<T>(levels: Seq<Seq<T>>) -> int {
    sum_levels(levels, level_weight())
}

/// The items that the levels hold.
pub open spec fn held<T>(levels: Seq<Seq<T>>) -> int {
    sum_levels(levels, level_size())
}

/// How often one level holds `x`.
pub open spec fn level_copies<T>(x: T) -> spec_fn(int, Seq<T>) -> int {
    |h: int, s: Seq<T>| s.to_multiset().count(x) as int
}

/// How often the levels hold `x`.
pub open spec fn copies<T>(levels: Seq<Seq<T>>, x: T) -> int {
    sum_levels(levels, level_copies(x))
}

/// The estimate that the levels give of how many items of the stream rank at or before `x`.
pub open spec fn estimated_rank<T: TotalOrd>(levels: Seq<Seq<T>>, x: T) -> int {
    sum_levels(levels, level_rank(x))
}

/// Every second item of `run`, from the first one or, on `coin`, from the second one. A last item
/// without a partner is left out.
pub open spec fn halved<T>(run: Seq<T>, coin: bool) -> Seq<T> {
    Seq::new(
        run.len() / 2,
        |i: int|
            run[2 * i + if coin {
                1int
            } else {
                0int
            }],
    )
}

/// The last item of `run` where it has no partner.
pub open spec fn straggler<T>(run: Seq<T>) -> Seq<T> {
    if run.len() % 2 == 1 {
        seq![run.last()]
    } else {
        Seq::empty()
    }
}

/// `run` is what is compacted of `level`: its items in ascending rank. Only the base level still
/// has to be sorted for that; which of two items that rank the same then comes first is open.
pub open spec fn is_run<T: TotalOrd>(level: Seq<T>, base: bool, run: Seq<T>) -> bool {
    if base {
        sorted(run, rank_order::<T>()) && run.to_multiset() == level.to_multiset()
    } else {
        run == level
    }
}

/// The levels after `run`, the items of level `h`, was compacted into the level above it.
pub open spec fn compacted<T: TotalOrd>(
    levels: Seq<Seq<T>>,
    h: int,
    run: Seq<T>,
    coin: bool,
) -> Seq<Seq<T>> {
    levels.update(h, straggler(run)).update(
        h + 1,
        merged(levels[h + 1], halved(run, coin), rank_order::<T>()),
    )
}

impl<T: TotalOrd> SketchView<T> {
    /// Level `h` has reached its capacity.
    pub open spec fn is_full(self, h: int) -> bool {
        self.levels[h].len() >= threshold(self.k, (self.levels.len() - h - 1) as nat)
    }

    /// Level `h` is the lowest one that has reached its capacity.
    pub open spec fn is_first_full(self, h: int) -> bool {
        &&& 0 <= h < self.levels.len()
        &&& self.is_full(h)
        &&& forall|i: int| 0 <= i < h ==> !#[trigger] self.is_full(i)
    }

    /// The sketch with room above level `h`: the top level gets a new one above it.
    pub open spec fn grown(self, h: int) -> Self {
        if h == self.levels.len() - 1 {
            SketchView {
                levels: self.levels.push(Seq::empty()),
                max_items: self.max_items + threshold(self.k, self.levels.len()),
                ..self
            }
        } else {
            self
        }
    }

    /// The sketch with `val` taken in.
    pub open spec fn ingested(self, val: T) -> Self {
        SketchView {
            levels: self.levels.update(0, self.levels[0].push(val)),
            consumed: self.consumed + 1,
            ..self
        }
    }

    /// The sketch after level `h` was compacted.
    pub open spec fn compacted_at(self, h: int, run: Seq<T>, coin: bool) -> Self {
        let roomy = self.grown(h);
        SketchView { levels: compacted(roomy.levels, h, run, coin), ..roomy }
    }

    /// `post` is what compacting the lowest full level makes of this sketch.
    pub open spec fn compacts_to(self, post: Self, coin: bool) -> bool {
        exists|h: int, run: Seq<T>|
            {
                &&& self.is_first_full(h)
                &&& is_run(self.levels[h], h == 0, run)
                &&& post == #[trigger] self.compacted_at(h, run, coin)
            }
    }

    /// `post` is what taking in `val` makes of this sketch: where the items outgrow their room,
    /// the lowest full level is compacted.
    pub open spec fn updates_to(self, post: Self, val: T, coin: bool) -> bool {
        let next = self.ingested(val);
        if held(next.levels) <= self.max_items {
            post == next
        } else {
            next.compacts_to(post, coin)
        }
    }

    /// What holds at all times, also while the items outgrow their room.
    pub open spec fn sound(self) -> bool {
        &&& self.k >= 2
        &&& 3 * self.k <= isize::MAX
        &&& 1 <= self.levels.len() <= MAX_DEPTH
        &&& forall|h: int|
            1 <= h < self.levels.len() ==> sorted(#[trigger] self.levels[h], rank_order::<T>())
        &&& self.levels.len() > 1 ==> self.levels.last().len() > 0
        &&& weight(self.levels) == self.consumed
        &&& self.consumed <= usize::MAX
        &&& self.max_items == capacity(self.k, self.levels.len())
    }

    /// What holds between two calls: every level but the base is sorted, the levels stand for
    /// exactly the items taken in, and together they hold no more than they may.
    pub open spec fn valid(self) -> bool {
        &&& self.sound()
        &&& held(self.levels) <= self.max_items
    }
}

/// The values that are there.
pub open spec fn present<T>(values: Seq<Option<T>>) -> nat
    decreases values.len(),
{
    if values.len() == 0 {
        0
    } else {
        present(values.drop_last()) + if values.last() is Some {
            1nat
        } else {
            0nat
        }
    }
}

/// `post` is what taking in, one after the other, the values that are there can make of `pre`.
pub open spec fn feeds<T: TotalOrd>(
    pre: SketchView<T>,
    values: Seq<Option<T>>,
    post: SketchView<T>,
) -> bool
    decreases values.len(),
{
    if values.len() == 0 {
        post == pre
    } else {
        match values.last() {
            None => feeds(pre, values.drop_last(), post),
            Some(val) => exists|mid: SketchView<T>, coin: bool|
                feeds(pre, values.drop_last(), mid) && #[trigger] mid.updates_to(post, val, coin),
        }
    }
}

} // verus!
