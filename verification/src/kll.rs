//! The KLL quantile sketch: a stream summarised by a stack of compactors.
use crate::capacity::{
    compactor_threshold, law_capacity_is_linear, lemma_threshold_top, threshold, MAX_DEPTH,
};
use crate::kll_laws::{
    law_update_keeps_valid, lemma_ingested_sound, lemma_run_len, lemma_some_level_full,
};
use crate::kll_model::{
    compacted, feeds, halved, held, is_run, present, straggler, sum_levels, SketchView,
};
use crate::merge::{merged, sorted};
use crate::merge_laws::law_merge_keeps_elements;
use crate::sketch_laws::{law_column_is_taken_in_order, law_present_counts_what_is_there};
use crate::total_ord::{rank_order, TotalOrd};
use rand::rngs::SmallRng;
use rand::{RngExt, SeedableRng};
use vstd::prelude::*;

verus! {

/// `rand::rngs::SmallRng`, the generator that a sketch draws its coins from. Nothing is said of
/// its state.
#[verifier::external_type_specification]
#[verifier::external_body]
pub struct ExSmallRng(SmallRng);

/// Calls `SmallRng::from_rng` on the generator of `rand::rng`. The state it starts in is random:
/// nothing is claimed of it. `rand::rng` panics where the system has no entropy to give.
#[verifier::external_body]
fn seeded_rng() -> SmallRng {
    SmallRng::from_rng(&mut rand::rng())
}

/// Calls `RngExt::random` for a `bool`. The outcome is random: nothing is claimed of it.
#[verifier::external_body]
fn flip(rng: &mut SmallRng) -> bool {
    rng.random()
}

/// Calls `slice::sort_unstable_by` with `TotalOrd::tot_cmp`. The items stay the same and end up
/// in ascending rank; in which order items that rank the same come out is left open.
#[verifier::external_body]
fn sort_items<T: TotalOrd>(items: &mut Vec<T>)
    ensures
        final(items)@.to_multiset() == old(items)@.to_multiset(),
        sorted(final(items)@, rank_order::<T>()),
{
    items.sort_unstable_by(TotalOrd::tot_cmp)
}

/// A prefix holds no more values than the whole.
proof fn lemma_present_prefix<T>(values: Seq<Option<T>>, n: int)
    requires
        0 <= n <= values.len(),
    ensures
        present(values.take(n)) <= present(values),
    decreases values.len() - n,
{
    if n < values.len() {
        assert(values.take(n + 1).drop_last() =~= values.take(n));
        lemma_present_prefix(values, n + 1);
    } else {
        assert(values.take(n) =~= values);
    }
}

/// The items of `items`, last one first.
fn reversed<T>(items: Vec<T>) -> (out: Vec<T>)
    ensures
        out@ == items@.reverse(),
{
    let mut rest = items;
    let mut out: Vec<T> = Vec::with_capacity(rest.len());
    let ghost all = rest@;
    while rest.len() > 0
        invariant
            rest@.len() + out@.len() == all.len(),
            rest@ == all.take(rest@.len() as int),
            out@ == all.reverse().take(out@.len() as int),
        decreases rest@.len(),
    {
        if let Some(item) = rest.pop() {
            out.push(item);
        }
    }
    out
}

/// Appends the merge of `iter1` and `iter2` to `vec`. Of two items that rank the same, the one of
/// `iter1` goes first.
pub fn merge_sorted<T: TotalOrd>(vec: &mut Vec<T>, iter1: Vec<T>, iter2: Vec<T>)
    ensures
        final(vec)@ == old(vec)@ + merged(iter1@, iter2@, rank_order::<T>()),
        final(vec)@.take(old(vec)@.len() as int) == old(vec)@,
        final(vec)@.skip(old(vec)@.len() as int).to_multiset() == iter1@.to_multiset().add(
            iter2@.to_multiset(),
        ),
{
    let ghost le = rank_order::<T>();
    let ghost start = vec@;
    let ghost all = merged(iter1@, iter2@, le);
    let mut rest1 = reversed(iter1);
    let mut rest2 = reversed(iter2);
    proof {
        assert(iter1@.reverse().reverse() =~= iter1@);
        assert(iter2@.reverse().reverse() =~= iter2@);
    }
    while rest1.len() > 0 || rest2.len() > 0
        invariant
            le == rank_order::<T>(),
            vec@ + merged(rest1@.reverse(), rest2@.reverse(), le) =~= start + all,
        decreases rest1@.len() + rest2@.len(),
    {
        let ghost a = rest1@.reverse();
        let ghost b = rest2@.reverse();
        let left: bool = if rest1.len() == 0 {
            false
        } else if rest2.len() == 0 {
            true
        } else {
            rest1[rest1.len() - 1].tot_le(&rest2[rest2.len() - 1])
        };
        proof {
            if a.len() > 0 && b.len() == 0 {
                assert(a =~= seq![a[0]] + a.drop_first());
            }
            if b.len() > 0 && a.len() == 0 {
                assert(b =~= seq![b[0]] + b.drop_first());
            }
        }
        let next: Option<T> = if left {
            rest1.pop()
        } else {
            rest2.pop()
        };
        proof {
            if left {
                assert(rest1@.reverse() =~= a.drop_first());
            } else {
                assert(rest2@.reverse() =~= b.drop_first());
            }
        }
        if let Some(item) = next {
            vec.push(item);
        }
    }
    proof {
        law_merge_keeps_elements(iter1@, iter2@, le);
        assert(vec@ =~= start + all);
        assert(vec@.take(start.len() as int) =~= start);
        assert(vec@.skip(start.len() as int) =~= all);
    }
}

/// Takes every second item of `run` and the last one where it has no partner.
fn take_half<T>(run: Vec<T>, coin: bool) -> (out: (Vec<T>, Option<T>))
    ensures
        out.0@ == halved(run@, coin),
        straggler(run@) == (match out.1 {
            Some(item) => seq![item],
            None => Seq::<T>::empty(),
        }),
{
    let ghost all = run@;
    let mut pairs = run;
    let mut last: Option<T> = None;
    if pairs.len() % 2 == 1 {
        last = pairs.pop();
    }
    let ghost even = pairs@;
    let mut rest = reversed(pairs);
    let mut kept: Vec<T> = Vec::with_capacity(rest.len() / 2);
    while rest.len() > 1
        invariant
            rest@ == even.reverse().take(rest@.len() as int),
            rest@.len() % 2 == 0,
            rest@.len() <= even.len(),
            even.len() - rest@.len() == 2 * kept@.len(),
            kept@ == halved(even, coin).take(kept@.len() as int),
        decreases rest@.len(),
    {
        let first = rest.pop();
        let second = rest.pop();
        let choice: Option<T> = if coin {
            second
        } else {
            first
        };
        if let Some(item) = choice {
            kept.push(item);
        }
    }
    proof {
        assert(halved(even, coin) =~= halved(all, coin));
    }
    (kept, last)
}

#[derive(Debug, Clone, Copy)]
struct Level {
    offset: usize,
    size: usize,
}

/// A sketch of a stream, from which ranks and quantiles can be estimated.
#[derive(Debug)]
pub struct KLLSketch<T: TotalOrd> {
    /// Contents of the compactors. The offsets of the compactors are stored in the levels vector.
    /// The top-level compactor is stored at the start of this vector, and the bottom-most one at
    /// its end, so the order of `levels` is reversed with respect to `items`.
    items: Vec<T>,
    levels: Vec<Level>,
    consumed_items: usize,
    max_items: usize,
    k: usize,
    rng: SmallRng,
    scratch: Vec<T>,
}

/// Level `h` starts where the one above it ends.
spec fn adjoins(lv: Seq<Level>, h: int) -> bool {
    lv[h].offset == lv[h + 1].offset + lv[h + 1].size
}

/// The levels lie in `len` items end to end, the top one first.
spec fn end_to_end(lv: Seq<Level>, len: int) -> bool {
    let n = lv.len() as int;
    &&& n > 0
    &&& lv[n - 1].offset == 0
    &&& lv[0].offset + lv[0].size == len
    &&& forall|h: int| 0 <= h < n - 1 ==> #[trigger] adjoins(lv, h)
    &&& forall|h: int| 0 <= h < n ==> (#[trigger] lv[h]).offset + lv[h].size <= len
    &&& forall|i: int, j: int|
        0 <= i < j < n ==> (#[trigger] lv[j]).offset + lv[j].size <= (#[trigger] lv[i]).offset
}

/// What each level holds of `items`.
spec fn slices<T>(items: Seq<T>, lv: Seq<Level>) -> Seq<Seq<T>> {
    Seq::new(
        lv.len(),
        |h: int| items.subrange(lv[h].offset as int, lv[h].offset + lv[h].size),
    )
}

/// Exchanging the contents of level `h` and of the one above it, and moving the levels below
/// along, leaves all other levels as they are.
proof fn lemma_exchange<T>(
    items: Seq<T>,
    lv: Seq<Level>,
    h: int,
    up: Seq<T>,
    rest: Seq<T>,
    now_items: Seq<T>,
    now: Seq<Level>,
)
    requires
        end_to_end(lv, items.len() as int),
        0 <= h < lv.len() - 1,
        up.len() + rest.len() <= lv[h].size + lv[h + 1].size,
        now_items == items.take(lv[h + 1].offset as int) + up + rest + items.skip(
            lv[h].offset + lv[h].size,
        ),
        now.len() == lv.len(),
        now[h + 1].offset == lv[h + 1].offset,
        now[h + 1].size == up.len(),
        now[h].offset == lv[h + 1].offset + up.len(),
        now[h].size == rest.len(),
        forall|j: int| h + 1 < j < lv.len() ==> #[trigger] now[j] == lv[j],
        forall|j: int|
            0 <= j < h ==> (#[trigger] now[j]).size == lv[j].size && now[j].offset == lv[j].offset
                - (lv[h].size + lv[h + 1].size - up.len() - rest.len()),
    ensures
        end_to_end(now, now_items.len() as int),
        slices(now_items, now) == slices(items, lv).update(h, rest).update(h + 1, up),
{
    let n = lv.len() as int;
    assert(adjoins(lv, h));
    assert(lv[h].offset + lv[h].size <= items.len());
    let shift = lv[h].size + lv[h + 1].size - up.len() - rest.len();
    assert(now_items.len() == items.len() - shift);
    assert forall|j: int| 0 <= j < n implies (#[trigger] now[j]).offset + now[j].size
        <= now_items.len() by {
        assert(lv[j].offset + lv[j].size <= items.len());
        assert(j > h + 1 ==> lv[j].offset + lv[j].size <= lv[h + 1].offset);
    }
    assert forall|j: int| 0 <= j < n - 1 implies #[trigger] adjoins(now, j) by {
        assert(adjoins(lv, j));
    }
    assert forall|i: int, j: int| 0 <= i < j < n implies (#[trigger] now[j]).offset + now[j].size
        <= (#[trigger] now[i]).offset by {
        assert(lv[j].offset + lv[j].size <= lv[i].offset);
        assert(i < h ==> lv[h].offset + lv[h].size <= lv[i].offset);
        assert(j > h + 1 ==> lv[j].offset + lv[j].size <= lv[h + 1].offset);
    }
    let got = slices(now_items, now);
    let want = slices(items, lv).update(h, rest).update(h + 1, up);
    assert forall|j: int| 0 <= j < n implies #[trigger] got[j] =~= want[j] by {
        assert(lv[j].offset + lv[j].size <= items.len());
        assert(j < h ==> lv[h].offset + lv[h].size <= lv[j].offset);
        assert(j > h + 1 ==> lv[j].offset + lv[j].size <= lv[h + 1].offset);
    }
    assert(got =~= want);
}

impl<T: TotalOrd> View for KLLSketch<T> {
    type V = SketchView<T>;

    closed spec fn view(&self) -> SketchView<T> {
        SketchView {
            levels: slices(self.items@, self.levels@),
            consumed: self.consumed_items as nat,
            max_items: self.max_items as nat,
            k: self.k as nat,
        }
    }
}

impl<T: TotalOrd> KLLSketch<T> {
    /// The levels lie in `items` end to end, the top one first.
    pub closed spec fn laid_out(&self) -> bool {
        end_to_end(self.levels@, self.items@.len() as int)
    }

    /// What every call keeps.
    pub open spec fn wf(&self) -> bool {
        &&& self.laid_out()
        &&& self@.valid()
    }

    /// The levels hold the items.
    proof fn lemma_held(&self)
        requires
            self.laid_out(),
        ensures
            held(self@.levels) == self.items@.len(),
    {
        let n = self.levels@.len() as int;
        self.lemma_held_below(n);
        assert(self@.levels.take(n) =~= self@.levels);
    }

    proof fn lemma_held_below(&self, m: int)
        requires
            self.laid_out(),
            0 < m <= self.levels@.len(),
        ensures
            held(self@.levels.take(m)) == self.items@.len() - self.levels@[m - 1].offset,
        decreases m,
    {
        let part = self@.levels.take(m);
        assert(part.drop_last() =~= self@.levels.take(m - 1));
        assert(part.last() == self@.levels[m - 1]);
        assert(self.levels@[m - 1].offset + self.levels@[m - 1].size <= self.items@.len());
        if m > 1 {
            self.lemma_held_below(m - 1);
            assert(adjoins(self.levels@, m - 2));
        } else {
            assert(part.drop_last() =~= Seq::<Seq<T>>::empty());
            assert(held(part.drop_last()) == 0);
        }
    }

    /// An empty sketch whose top compactor holds `k` items, with room reserved for the items of all
    /// compactors.
    pub fn new(k: usize) -> (sketch: Self)
        requires
            k >= 2,
            3 * k <= isize::MAX,
        ensures
            sketch.wf(),
            sketch@ == (SketchView {
                levels: seq![Seq::<T>::empty()],
                consumed: 0,
                max_items: k as nat,
                k: k as nat,
            }),
    {
        let mut levels: Vec<Level> = Vec::new();
        levels.push(Level { offset: 0, size: 0 });
        let sketch = KLLSketch {
            items: Vec::with_capacity(3 * k),
            levels,
            consumed_items: 0,
            max_items: k,
            k,
            rng: seeded_rng(),
            scratch: Vec::with_capacity(k),
        };
        proof {
            assert(sketch@.levels[0] =~= Seq::<T>::empty());
            assert(sketch@.levels =~= seq![Seq::<T>::empty()]);
            lemma_threshold_top(k as nat);
            assert(sketch@.levels.drop_last() =~= Seq::<Seq<T>>::empty());
            reveal_with_fuel(sum_levels, 2);
            sketch.lemma_held();
        }
        sketch
    }

    /// Takes `val` in, drawing a coin where a level has to be compacted for it.
    pub fn update(&mut self, val: T)
        requires
            old(self).wf(),
            old(self)@.consumed < usize::MAX,
        ensures
            final(self).wf(),
            exists|coin: bool| #[trigger] old(self)@.updates_to(final(self)@, val, coin),
    {
        let ghost before = self@;
        self.ingest(val);
        proof {
            self.lemma_held();
        }
        if self.items.len() > self.max_items {
            let coin: bool = flip(&mut self.rng);
            proof {
                lemma_some_level_full(self@);
                law_capacity_is_linear(self.k as nat, (self@.levels.len() + 1) as nat);
            }
            self.compact(coin);
            proof {
                assert(before.updates_to(self@, val, coin));
                law_update_keeps_valid(before, self@, val, coin);
            }
        } else {
            proof {
                assert(before.updates_to(self@, val, false));
            }
        }
    }

    /// Takes `val` in, with `coin` as the outcome of the coin.
    pub fn update_with(&mut self, val: T, coin: bool)
        requires
            old(self).wf(),
            old(self)@.consumed < usize::MAX,
        ensures
            final(self).wf(),
            old(self)@.updates_to(final(self)@, val, coin),
    {
        let ghost before = self@;
        self.ingest(val);
        proof {
            self.lemma_held();
        }
        if self.items.len() > self.max_items {
            proof {
                lemma_some_level_full(self@);
                law_capacity_is_linear(self.k as nat, (self@.levels.len() + 1) as nat);
            }
            self.compact(coin);
            proof {
                law_update_keeps_valid(before, self@, val, coin);
            }
        }
    }

    /// Takes in the values of a column that are not null.
    pub fn update_all(&mut self, values: &[Option<T>]) where T: Copy
        requires
            old(self).wf(),
            old(self)@.consumed + present(values@) <= usize::MAX,
        ensures
            final(self).wf(),
            feeds(old(self)@, values@, final(self)@),
            final(self)@.consumed == old(self)@.consumed + present(values@),
            final(self)@.k == old(self)@.k,
            old(self)@.levels.flatten().len() + values@.filter_map(|v: Option<T>| v).len()
                <= old(self)@.max_items ==> final(self)@.levels == old(self)@.levels.update(
                0,
                old(self)@.levels[0] + values@.filter_map(|v: Option<T>| v),
            ),
    {
        let ghost start = self@;
        let mut i: usize = 0;
        proof {
            assert(values@.take(0) =~= Seq::<Option<T>>::empty());
        }
        while i < values.len()
            invariant
                i <= values@.len(),
                self.wf(),
                start.valid(),
                start.consumed + present(values@) <= usize::MAX,
                feeds(start, values@.take(i as int), self@),
                self@.consumed == start.consumed + present(values@.take(i as int)),
                self@.k == start.k,
            decreases values@.len() - i,
        {
            let ghost mid = self@;
            let ghost upto = values@.take(i + 1);
            proof {
                assert(upto.drop_last() =~= values@.take(i as int));
                assert(upto.last() == values@[i as int]);
                lemma_present_prefix(values@, i + 1);
            }
            if let Some(val) = values[i] {
                self.update(val);
                proof {
                    let coin = choose|coin: bool| #[trigger] mid.updates_to(self@, val, coin);
                    law_update_keeps_valid(mid, self@, val, coin);
                    assert(feeds(start, upto, self@));
                }
            }
            i += 1;
        }
        proof {
            assert(values@.take(i as int) =~= values@);
            law_present_counts_what_is_there(values@);
            if start.levels.flatten().len() + values@.filter_map(|v: Option<T>| v).len()
                <= start.max_items {
                law_column_is_taken_in_order(start, values@, self@);
            }
        }
    }

    /// Puts `val` into the bottom compactor.
    fn ingest(&mut self, val: T)
        requires
            old(self).wf(),
            old(self)@.consumed < usize::MAX,
        ensures
            final(self).laid_out(),
            final(self)@ == old(self)@.ingested(val),
            final(self)@.sound(),
            held(final(self)@.levels) == held(old(self)@.levels) + 1,
    {
        let ghost before = *self;
        proof {
            self.lemma_held();
            law_capacity_is_linear(self.k as nat, self@.levels.len());
        }
        self.items.push(val);
        self.consumed_items += 1;
        let bottom = self.levels[0];
        self.levels[0] = Level { offset: bottom.offset, size: bottom.size + 1 };
        proof {
            let want = before@.ingested(val);
            assert forall|h: int| 0 <= h < want.levels.len() implies #[trigger] want.levels[h]
                =~= self@.levels[h] by {
                assert(before.levels@[h].offset + before.levels@[h].size <= before.items@.len());
            }
            assert(want.levels =~= self@.levels);
            assert forall|h: int| 0 <= h < self.levels@.len() - 1 implies #[trigger] adjoins(
                self.levels@,
                h,
            ) by {
                assert(adjoins(before.levels@, h));
            }
            lemma_ingested_sound(before@, val);
        }
    }

    /// Compacts the lowest level that has reached its capacity, if there is one.
    fn compact(&mut self, coin: bool)
        requires
            old(self).laid_out(),
            old(self)@.levels.len() <= MAX_DEPTH,
            old(self)@.max_items + threshold(old(self)@.k, old(self)@.levels.len()) <= usize::MAX,
        ensures
            final(self).laid_out(),
            (forall|h: int| 0 <= h < old(self)@.levels.len() ==> !#[trigger] old(self)@.is_full(h))
                ==> *final(self) == *old(self),
            (exists|h: int| 0 <= h < old(self)@.levels.len() && #[trigger] old(self)@.is_full(h))
                ==> old(self)@.compacts_to(final(self)@, coin),
    {
        let ghost before = self@;
        let num_levels = self.levels.len();
        let mut level: usize = 0;
        while level < num_levels && self.levels[level].size < compactor_threshold(
            self.k,
            num_levels - level - 1,
        )
            invariant
                *self == *old(self),
                self@ == before,
                num_levels == self.levels@.len(),
                num_levels == before.levels.len(),
                num_levels <= MAX_DEPTH,
                self.k == before.k,
                self.laid_out(),
                level <= num_levels,
                forall|i: int| 0 <= i < level ==> !#[trigger] before.is_full(i),
            decreases num_levels - level,
        {
            proof {
                assert(self.levels@[level as int].offset + self.levels@[level as int].size
                    <= self.items@.len());
                assert(before.levels[level as int].len() == self.levels@[level as int].size);
                assert(!before.is_full(level as int));
            }
            level += 1;
        }
        if level == num_levels {
            return;
        }
        proof {
            assert(self.levels@[level as int].offset + self.levels@[level as int].size
                <= self.items@.len());
            assert(before.levels[level as int].len() == self.levels@[level as int].size);
            assert(before.is_first_full(level as int));
        }
        if level == num_levels - 1 {
            self.add_new_compactor();
        }
        let ghost roomy = self@;
        self.compact_level(level, coin);
        proof {
            let h = level as int;
            assert(roomy == before.grown(h));
            let run = choose|run: Seq<T>|
                {
                    &&& is_run(roomy.levels[h], h == 0, run)
                    &&& self@.levels == #[trigger] compacted(roomy.levels, h, run, coin)
                };
            assert(roomy.levels[h] == before.levels[h]);
            assert(self@ == before.compacted_at(h, run, coin));
        }
    }

    /// Adds an empty compactor above the top one.
    fn add_new_compactor(&mut self)
        requires
            old(self).laid_out(),
            old(self)@.levels.len() <= MAX_DEPTH,
            old(self)@.max_items + threshold(old(self)@.k, old(self)@.levels.len()) <= usize::MAX,
        ensures
            final(self).laid_out(),
            final(self)@ == old(self)@.grown(old(self)@.levels.len() - 1),
    {
        let ghost before = *self;
        self.levels.push(Level { offset: 0, size: 0 });
        self.max_items += compactor_threshold(self.k, self.levels.len() - 1);
        proof {
            let want = before@.grown(before@.levels.len() - 1);
            assert forall|h: int| 0 <= h < want.levels.len() implies #[trigger] want.levels[h]
                =~= self@.levels[h] by {}
            assert(want.levels =~= self@.levels);
            assert forall|h: int| 0 <= h < self.levels@.len() - 1 implies #[trigger] adjoins(
                self.levels@,
                h,
            ) by {
                if h < before.levels@.len() - 1 {
                    assert(adjoins(before.levels@, h));
                }
            }
        }
    }

    /// Compacts `level` into the level above it: one item of each pair goes up, the other one is
    /// dropped, and an item without a partner stays.
    fn compact_level(&mut self, level: usize, coin: bool)
        requires
            old(self).laid_out(),
            level + 1 < old(self)@.levels.len(),
        ensures
            final(self).laid_out(),
            final(self)@.consumed == old(self)@.consumed,
            final(self)@.max_items == old(self)@.max_items,
            final(self)@.k == old(self)@.k,
            exists|run: Seq<T>|
                {
                    &&& is_run(old(self)@.levels[level as int], level == 0, run)
                    &&& final(self)@.levels == #[trigger] compacted(
                        old(self)@.levels,
                        level as int,
                        run,
                        coin,
                    )
                },
    {
        let ghost before = *self;
        let ghost lv = self.levels@;
        let ghost h = level as int;
        let num_items = self.items.len();
        let num_levels = self.levels.len();
        proof {
            assert(adjoins(lv, h));
            assert(lv[h].offset + lv[h].size <= num_items);
        }
        let compact_start: usize = self.levels[level].offset;
        let compact_end: usize = compact_start + self.levels[level].size;
        let next_start: usize = self.levels[level + 1].offset;

        let mut below = self.items.split_off(compact_end);
        let mut run = self.items.split_off(compact_start);
        let next_level_items = self.items.split_off(next_start);
        let ghost above = self.items@;
        let ghost low = below@;
        proof {
            assert(run@ =~= before@.levels[h]);
            assert(next_level_items@ =~= before@.levels[h + 1]);
            assert(above =~= before.items@.take(next_start as int));
            assert(low =~= before.items@.skip(compact_end as int));
        }

        // The base compactor is not sorted yet
        if level == 0 {
            sort_items(&mut run);
        }
        let ghost sorted_run = run@;
        proof {
            assert(is_run(before@.levels[h], level == 0, sorted_run));
            lemma_run_len(before@.levels[h], level == 0, sorted_run);
        }

        // Throw away half of the values, and stash the straggler to add it back later
        let (compacted_items, last) = take_half(run, coin);

        // Merge the items into the next compactor
        let ghost up = merged(next_level_items@, compacted_items@, rank_order::<T>());
        proof {
            law_merge_keeps_elements(next_level_items@, compacted_items@, rank_order::<T>());
        }
        self.scratch.clear();
        merge_sorted(&mut self.scratch, next_level_items, compacted_items);
        let next_size: usize = self.scratch.len();
        self.items.append(&mut self.scratch);

        // Add back the straggler
        let offset: usize = self.items.len();
        let mut size: usize = 0;
        if let Some(item) = last {
            self.items.push(item);
            size = 1;
        }
        self.items.append(&mut below);
        proof {
            assert(self.items@ =~= above + up + straggler(sorted_run) + low);
        }

        // Shift all of the compactors below the current one
        let shift: usize = compact_end - (offset + size);
        let mut i: usize = 0;
        while i < level
            invariant
                i <= level,
                level + 1 < lv.len(),
                self.levels@.len() == lv.len(),
                self.items@ == above + up + straggler(sorted_run) + low,
                self.consumed_items == before.consumed_items,
                self.max_items == before.max_items,
                self.k == before.k,
                shift <= compact_end,
                forall|j: int| 0 <= j < level ==> compact_end <= (#[trigger] lv[j]).offset,
                forall|j: int|
                    i <= j < lv.len() ==> (#[trigger] self.levels@[j]) == lv[j],
                forall|j: int|
                    0 <= j < i ==> (#[trigger] self.levels@[j]).offset == lv[j].offset - shift
                        && self.levels@[j].size == lv[j].size,
            decreases level - i,
        {
            let moved = self.levels[i];
            proof {
                assert(lv[i as int].offset >= compact_end);
            }
            self.levels[i] = Level { offset: moved.offset - shift, size: moved.size };
            i += 1;
        }
        self.levels[level] = Level { offset, size };
        self.levels[level + 1] = Level { offset: next_start, size: next_size };
        proof {
            lemma_exchange(
                before.items@,
                lv,
                h,
                up,
                straggler(sorted_run),
                self.items@,
                self.levels@,
            );
            assert(self@.levels == compacted(before@.levels, h, sorted_run, coin));
        }
    }

    /// The items taken in so far.
    pub fn consumed_items(&self) -> (n: usize)
        ensures
            n == self@.consumed,
    {
        self.consumed_items
    }

    /// The number of compactors.
    pub fn num_levels(&self) -> (n: usize)
        ensures
            n == self@.levels.len(),
    {
        self.levels.len()
    }

    /// The items of the compactor at height `h`.
    pub fn level(&self, h: usize) -> (items: &[T])
        requires
            self.laid_out(),
            h < self@.levels.len(),
        ensures
            items@ == self@.levels[h as int],
    {
        let num_items = self.items.len();
        let at = self.levels[h];
        proof {
            assert(self.levels@[h as int].offset + self.levels@[h as int].size <= num_items);
        }
        vstd::slice::slice_subrange(self.items.as_slice(), at.offset, at.offset + at.size)
    }
}

} // verus!
