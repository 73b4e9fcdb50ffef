//! What every update of a quantile sketch keeps, and how far a compaction moves its estimates.
use crate::capacity::{capacity, law_capacity_is_linear, lemma_threshold_bounds, MAX_DEPTH};
use crate::kll_model::{
    compacted, copies, count_le, estimated_rank, halved, held, is_run, level_copies, level_rank,
    level_size, level_weight, straggler, sum_levels, weight, SketchView,
};
use crate::merge::{merged, sorted};
use crate::merge_laws::{law_merge_is_sorted, law_merge_keeps_elements};
use crate::total_ord::{lemma_rank_order, rank_order, TotalOrd};
use vstd::arithmetic::power2::{
    lemma_pow2_pos, lemma_pow2_strictly_increases, lemma_pow2_unfold, pow2,
};
use vstd::prelude::*;

verus! {

/// Exchanging one level changes the sum by the difference of its terms.
pub proof fn lemma_sum_update<T>(
    levels: Seq<Seq<T>>,
    f: spec_fn(int, Seq<T>) -> int,
    h: int,
    s: Seq<T>,
)
    requires
        0 <= h < levels.len(),
    ensures
        sum_levels(levels.update(h, s), f) == sum_levels(levels, f) - f(h, levels[h]) + f(h, s),
    decreases levels.len(),
{
    if h == levels.len() - 1 {
        assert(levels.update(h, s).drop_last() =~= levels.drop_last());
    } else {
        assert(levels.update(h, s).drop_last() =~= levels.drop_last().update(h, s));
        lemma_sum_update(levels.drop_last(), f, h, s);
    }
}

/// A level on top adds its term.
pub proof fn lemma_sum_push<T>(levels: Seq<Seq<T>>, f: spec_fn(int, Seq<T>) -> int, s: Seq<T>)
    ensures
        sum_levels(levels.push(s), f) == sum_levels(levels, f) + f(levels.len() as int, s),
{
    assert(levels.push(s).drop_last() =~= levels);
}

/// What is compacted of a level holds as many items as the level.
pub proof fn lemma_run_len<T: TotalOrd>(level: Seq<T>, base: bool, run: Seq<T>)
    requires
        is_run(level, base, run),
    ensures
        run.len() == level.len(),
{
    broadcast use vstd::seq_lib::group_to_multiset_ensures;

    assert(run.to_multiset().len() == run.len());
    assert(level.to_multiset().len() == level.len());
}

/// Compacting a level keeps what the levels stand for and frees half of the level's items.
pub proof fn lemma_compacted_sums<T: TotalOrd>(
    levels: Seq<Seq<T>>,
    h: int,
    run: Seq<T>,
    coin: bool,
)
    requires
        0 <= h < levels.len() - 1,
        run.len() == levels[h].len(),
    ensures
        weight(compacted(levels, h, run, coin)) == weight(levels),
        held(compacted(levels, h, run, coin)) == held(levels) - run.len() / 2,
{
    let up = merged(levels[h + 1], halved(run, coin), rank_order::<T>());
    law_merge_keeps_elements(levels[h + 1], halved(run, coin), rank_order::<T>());
    let mid = levels.update(h, straggler(run));
    lemma_sum_update(levels, level_weight(), h, straggler(run));
    lemma_sum_update(mid, level_weight(), h + 1, up);
    lemma_sum_update(levels, level_size(), h, straggler(run));
    lemma_sum_update(mid, level_size(), h + 1, up);
    let w = pow2(h as nat) as int;
    lemma_pow2_unfold((h + 1) as nat);
    let n = run.len() as int;
    let rest = straggler(run).len() as int;
    let above = levels[h + 1].len() as int;
    assert(n == 2 * (n / 2) + rest);
    assert(rest * w - n * w + (above + n / 2) * (2 * w) - above * (2 * w) == 0)
        by (nonlinear_arith)
        requires
            n == 2 * (n / 2) + rest,
    ;
}

/// A sketch that outgrew its room has a level that reached its capacity.
pub proof fn lemma_some_level_full<T: TotalOrd>(v: SketchView<T>)
    requires
        held(v.levels) > capacity(v.k, v.levels.len()),
    ensures
        exists|h: int| 0 <= h < v.levels.len() && #[trigger] v.is_full(h),
{
    if forall|h: int| 0 <= h < v.levels.len() ==> !#[trigger] v.is_full(h) {
        lemma_room_below(v, v.levels.len() as int);
        assert(v.levels.take(v.levels.len() as int) =~= v.levels);
    }
}

proof fn lemma_room_below<T: TotalOrd>(v: SketchView<T>, m: int)
    requires
        0 <= m <= v.levels.len(),
        forall|h: int| 0 <= h < v.levels.len() ==> !#[trigger] v.is_full(h),
    ensures
        held(v.levels.take(m)) <= capacity(v.k, v.levels.len()) - capacity(
            v.k,
            (v.levels.len() - m) as nat,
        ),
    decreases m,
{
    if m > 0 {
        lemma_room_below(v, m - 1);
        assert(v.levels.take(m).drop_last() =~= v.levels.take(m - 1));
        assert(!v.is_full(m - 1));
    } else {
        assert(v.levels.take(0) =~= Seq::<Seq<T>>::empty());
    }
}

/// The height of a sketch is logarithmic in the items it took in.
pub proof fn law_height_is_logarithmic<T: TotalOrd>(v: SketchView<T>)
    requires
        v.sound(),
    ensures
        v.levels.len() > 1 ==> pow2((v.levels.len() - 1) as nat) <= v.consumed,
{
    if v.levels.len() > 1 {
        let n = v.levels.len();
        lemma_weight_nonnegative(v.levels.drop_last());
        let w = pow2((n - 1) as nat);
        let s = v.levels.last().len();
        assert(s * w >= w) by (nonlinear_arith)
            requires
                s >= 1,
                w >= 0,
        ;
    }
}

proof fn lemma_weight_nonnegative<T>(levels: Seq<Seq<T>>)
    ensures
        weight(levels) >= 0,
    decreases levels.len(),
{
    if levels.len() > 0 {
        lemma_weight_nonnegative(levels.drop_last());
    }
}

/// A sketch never holds more than three times its top capacity and two items per level.
pub proof fn law_memory_is_bounded<T: TotalOrd>(v: SketchView<T>)
    requires
        v.valid(),
    ensures
        held(v.levels) <= 3 * v.k + 2 * v.levels.len(),
{
    law_capacity_is_linear(v.k, v.levels.len());
}

/// Taking an item in keeps the sketch sound.
pub proof fn lemma_ingested_sound<T: TotalOrd>(v: SketchView<T>, val: T)
    requires
        v.valid(),
        v.consumed < usize::MAX,
    ensures
        v.ingested(val).sound(),
        held(v.ingested(val).levels) == held(v.levels) + 1,
{
    let next = v.ingested(val);
    let s = v.levels[0].push(val);
    lemma_sum_update(v.levels, level_weight(), 0, s);
    lemma_sum_update(v.levels, level_size(), 0, s);
    vstd::arithmetic::power2::lemma2_to64();
    assert(pow2(0) == 1);
    let one = pow2(0int as nat);
    let before = v.levels[0].len();
    assert((before + 1) * one == before + 1 && before * one == before) by (nonlinear_arith)
        requires
            one == 1,
    ;
    assert(next.levels.len() > 1 ==> next.levels.last() == v.levels.last());
    assert forall|h: int| 1 <= h < next.levels.len() implies sorted(
        #[trigger] next.levels[h],
        rank_order::<T>(),
    ) by {
        assert(next.levels[h] == v.levels[h]);
    }
}

/// Half of an ascending run is ascending.
proof fn lemma_halved_sorted<T: TotalOrd>(run: Seq<T>, coin: bool)
    requires
        sorted(run, rank_order::<T>()),
    ensures
        sorted(halved(run, coin), rank_order::<T>()),
{
}

/// Compacting the lowest full level keeps the sketch sound and frees at least one item.
pub proof fn lemma_compacted_sound<T: TotalOrd>(
    v: SketchView<T>,
    h: int,
    run: Seq<T>,
    coin: bool,
)
    requires
        v.sound(),
        v.is_first_full(h),
        is_run(v.levels[h], h == 0, run),
    ensures
        v.compacted_at(h, run, coin).sound(),
        held(v.compacted_at(h, run, coin).levels) < held(v.levels),
        v.compacted_at(h, run, coin).max_items >= v.max_items,
{
    let roomy = v.grown(h);
    let post = v.compacted_at(h, run, coin);
    let n = v.levels.len();
    lemma_run_len(v.levels[h], h == 0, run);
    lemma_threshold_bounds(v.k, (n - h - 1) as nat);
    if h == n - 1 {
        lemma_sum_push(v.levels, level_weight(), Seq::<T>::empty());
        lemma_sum_push(v.levels, level_size(), Seq::<T>::empty());
    }
    assert(roomy.levels[h] == v.levels[h]);
    lemma_compacted_sums(roomy.levels, h, run, coin);
    let up = merged(roomy.levels[h + 1], halved(run, coin), rank_order::<T>());
    assert(up.len() >= 1 && sorted(up, rank_order::<T>())) by {
        law_merge_keeps_elements(roomy.levels[h + 1], halved(run, coin), rank_order::<T>());
        lemma_rank_order::<T>();
        assert(sorted(run, rank_order::<T>()));
        lemma_halved_sorted(run, coin);
        law_merge_is_sorted(roomy.levels[h + 1], halved(run, coin), rank_order::<T>());
    }
    assert forall|i: int| 1 <= i < post.levels.len() implies sorted(
        #[trigger] post.levels[i],
        rank_order::<T>(),
    ) by {
        if i != h && i != h + 1 {
            assert(post.levels[i] == v.levels[i]);
        }
    }
    assert(post.levels.len() <= MAX_DEPTH) by {
        let m = post.levels.len();
        lemma_weight_nonnegative(post.levels.drop_last());
        let w = pow2((m - 1) as nat);
        let s = post.levels.last().len();
        assert(s >= 1);
        assert(s * w >= w) by (nonlinear_arith)
            requires
                s >= 1,
                w >= 0,
        ;
        assert(w <= v.consumed);
        vstd::arithmetic::power2::lemma2_to64();
        if m > 64 {
            if m - 1 > 64 {
                lemma_pow2_strictly_increases(64, (m - 1) as nat);
            }
        }
    }
}

/// However an update turns out, the sketch stays valid: its levels stand for exactly the items
/// taken in, every level but the base is sorted, and the items fit their room.
pub proof fn law_update_keeps_valid<T: TotalOrd>(
    pre: SketchView<T>,
    post: SketchView<T>,
    val: T,
    coin: bool,
)
    requires
        pre.valid(),
        pre.consumed < usize::MAX,
        pre.updates_to(post, val, coin),
    ensures
        post.valid(),
        post.consumed == pre.consumed + 1,
        post.k == pre.k,
        weight(post.levels) == weight(pre.levels) + 1,
{
    let next = pre.ingested(val);
    lemma_ingested_sound(pre, val);
    if held(next.levels) > pre.max_items {
        let (h, run) = choose|h: int, run: Seq<T>|
            {
                &&& next.is_first_full(h)
                &&& is_run(next.levels[h], h == 0, run)
                &&& post == #[trigger] next.compacted_at(h, run, coin)
            };
        lemma_compacted_sound(next, h, run, coin);
    }
}

/// Counting over a concatenation adds up.
proof fn lemma_count_add<T: TotalOrd>(s: Seq<T>, t: Seq<T>, x: T)
    ensures
        count_le(s + t, x) == count_le(s, x) + count_le(t, x),
    decreases t.len(),
{
    if t.len() == 0 {
        assert(s + t =~= s);
    } else {
        assert((s + t).drop_last() =~= s + t.drop_last());
        lemma_count_add(s, t.drop_last(), x);
    }
}

proof fn lemma_count_one<T: TotalOrd>(y: T, x: T)
    ensures
        count_le(seq![y], x) == if y.ranks_le(x) {
            1nat
        } else {
            0nat
        },
{
    assert(seq![y].drop_last() =~= Seq::<T>::empty());
    reveal_with_fuel(count_le, 2);
}

/// The count does not depend on the order of the items.
proof fn lemma_count_multiset<T: TotalOrd>(s: Seq<T>, t: Seq<T>, x: T)
    requires
        s.to_multiset() == t.to_multiset(),
    ensures
        count_le(s, x) == count_le(t, x),
    decreases s.len(),
{
    broadcast use vstd::seq_lib::group_to_multiset_ensures;

    assert(s.to_multiset().len() == s.len());
    assert(t.to_multiset().len() == t.len());
    if s.len() > 0 {
        let y = s.last();
        assert(s.contains(y));
        assert(s.to_multiset().count(y) > 0);
        assert(t.contains(y));
        let j = choose|j: int| 0 <= j < t.len() && t[j] == y;
        assert(s.drop_last() =~= s.remove(s.len() - 1));
        assert(s.drop_last().to_multiset() == t.remove(j).to_multiset());
        lemma_count_multiset(s.drop_last(), t.remove(j), x);
        let before = t.take(j);
        let after = t.skip(j + 1);
        assert(t.remove(j) =~= before + after);
        assert(t =~= before + seq![y] + after);
        lemma_count_add(before, after, x);
        lemma_count_add(before, seq![y], x);
        lemma_count_add(before + seq![y], after, x);
        lemma_count_one(y, x);
    }
}

/// A merge counts what its sides count.
proof fn lemma_count_merged<T: TotalOrd>(a: Seq<T>, b: Seq<T>, x: T)
    ensures
        count_le(merged(a, b, rank_order::<T>()), x) == count_le(a, x) + count_le(b, x),
    decreases a.len() + b.len(),
{
    let le = rank_order::<T>();
    if a.len() > 0 && b.len() > 0 {
        let (y, a1, b1) = if le(a[0], b[0]) {
            (a[0], a.drop_first(), b)
        } else {
            (b[0], a, b.drop_first())
        };
        lemma_count_merged(a1, b1, x);
        lemma_count_add(seq![y], merged(a1, b1, le), x);
        lemma_count_add(seq![a[0]], a.drop_first(), x);
        lemma_count_add(seq![b[0]], b.drop_first(), x);
        assert(seq![a[0]] + a.drop_first() =~= a);
        assert(seq![b[0]] + b.drop_first() =~= b);
    }
}

/// The two halves and the straggler of a run make up the run.
proof fn lemma_count_halves<T: TotalOrd>(run: Seq<T>, x: T)
    ensures
        count_le(halved(run, false), x) + count_le(halved(run, true), x) + count_le(
            straggler(run),
            x,
        ) == count_le(run, x),
    decreases run.len(),
{
    let n = run.len() as int;
    if n % 2 == 1 {
        let even = run.drop_last();
        lemma_count_halves(even, x);
        assert(halved(run, false) =~= halved(even, false));
        assert(halved(run, true) =~= halved(even, true));
        lemma_count_one(run.last(), x);
        assert(count_le(straggler(even), x) == 0);
    } else if n > 0 {
        let shorter = run.take(n - 2);
        lemma_count_halves(shorter, x);
        assert(halved(run, false).drop_last() =~= halved(shorter, false));
        assert(halved(run, true).drop_last() =~= halved(shorter, true));
        assert(run.drop_last().drop_last() =~= shorter);
        assert(halved(run, false).last() == run[n - 2]);
        assert(halved(run, true).last() == run[n - 1]);
        assert(count_le(run, x) == count_le(run.drop_last(), x) + if run[n - 1].ranks_le(x) {
            1nat
        } else {
            0nat
        });
        assert(run.drop_last().last() == run[n - 2]);
    }
}

/// Where every item ranks at or before `x`, all are counted.
proof fn lemma_count_all<T: TotalOrd>(s: Seq<T>, x: T)
    requires
        forall|i: int| 0 <= i < s.len() ==> (#[trigger] s[i]).ranks_le(x),
    ensures
        count_le(s, x) == s.len(),
    decreases s.len(),
{
    if s.len() > 0 {
        lemma_count_all(s.drop_last(), x);
    }
}

/// The half that starts with the first item of an ascending run counts as much as the other one,
/// or one more.
proof fn lemma_halves_close<T: TotalOrd>(run: Seq<T>, x: T)
    requires
        sorted(run, rank_order::<T>()),
    ensures
        count_le(halved(run, true), x) <= count_le(halved(run, false), x) <= count_le(
            halved(run, true),
            x,
        ) + 1,
    decreases run.len(),
{
    let n = run.len() as int;
    let le = rank_order::<T>();
    if n % 2 == 1 {
        let even = run.drop_last();
        assert(halved(run, false) =~= halved(even, false));
        assert(halved(run, true) =~= halved(even, true));
        lemma_halves_close(even, x);
    } else if n > 0 {
        let shorter = run.take(n - 2);
        lemma_halves_close(shorter, x);
        assert(halved(run, false).drop_last() =~= halved(shorter, false));
        assert(halved(run, true).drop_last() =~= halved(shorter, true));
        let u = run[n - 2];
        let v = run[n - 1];
        assert(halved(run, false).last() == u);
        assert(halved(run, true).last() == v);
        assert(le(u, v));
        if v.ranks_le(x) {
            T::lemma_transitive(u, v, x);
        } else if u.ranks_le(x) {
            assert forall|i: int| 0 <= i < shorter.len() implies (
            #[trigger] shorter[i]).ranks_le(x) by {
                assert(le(run[i], u));
                T::lemma_transitive(run[i], u, x);
            }
            lemma_count_all(halved(shorter, false), x);
            lemma_count_all(halved(shorter, true), x);
        }
    }
}

/// What a compaction makes of the estimate of a rank.
proof fn lemma_estimate_after<T: TotalOrd>(
    levels: Seq<Seq<T>>,
    h: int,
    run: Seq<T>,
    coin: bool,
    x: T,
)
    requires
        0 <= h < levels.len() - 1,
        is_run(levels[h], h == 0, run),
    ensures
        estimated_rank(compacted(levels, h, run, coin), x) == estimated_rank(levels, x) + (
        count_le(halved(run, coin), x) - count_le(halved(run, !coin), x)) * pow2(h as nat),
{
    let up = merged(levels[h + 1], halved(run, coin), rank_order::<T>());
    let mid = levels.update(h, straggler(run));
    let f = level_rank(x);
    lemma_sum_update(levels, f, h, straggler(run));
    lemma_sum_update(mid, f, h + 1, up);
    lemma_count_merged(levels[h + 1], halved(run, coin), x);
    if h == 0 {
        lemma_count_multiset(run, levels[h], x);
    }
    lemma_count_halves(run, x);
    lemma_pow2_unfold((h + 1) as nat);
    let w = pow2(h as nat) as int;
    let c = count_le(run, x) as int;
    let kept = count_le(halved(run, coin), x) as int;
    let gone = count_le(halved(run, !coin), x) as int;
    let rest = count_le(straggler(run), x) as int;
    let above = count_le(levels[h + 1], x) as int;
    assert(mid[h + 1] == levels[h + 1]);
    assert(f(h, levels[h]) == c * w);
    assert(f(h, straggler(run)) == rest * w);
    assert(f(h + 1, levels[h + 1]) == above * (2 * w));
    assert(f(h + 1, up) == (above + kept) * (2 * w));
    assert(rest * w - c * w + (above + kept) * (2 * w) - above * (2 * w) == (kept - gone) * w)
        by (nonlinear_arith)
        requires
            c == kept + gone + rest,
    ;
}

/// A compaction is unbiased: over the two outcomes of the coin, the estimate of any rank is on
/// average what it was before.
pub proof fn law_compaction_is_unbiased<T: TotalOrd>(
    levels: Seq<Seq<T>>,
    h: int,
    run: Seq<T>,
    x: T,
)
    requires
        0 <= h < levels.len() - 1,
        is_run(levels[h], h == 0, run),
    ensures
        estimated_rank(compacted(levels, h, run, true), x) + estimated_rank(
            compacted(levels, h, run, false),
            x,
        ) == 2 * estimated_rank(levels, x),
{
    lemma_estimate_after(levels, h, run, true, x);
    lemma_estimate_after(levels, h, run, false, x);
    let w = pow2(h as nat) as int;
    let a = count_le(halved(run, true), x) as int;
    let b = count_le(halved(run, false), x) as int;
    assert((a - b) * w + (b - a) * w == 0) by (nonlinear_arith);
}

/// One compaction of level `h` moves the estimate of a rank by at most `2^h`.
pub proof fn law_compaction_error_is_bounded<T: TotalOrd>(
    levels: Seq<Seq<T>>,
    h: int,
    run: Seq<T>,
    coin: bool,
    x: T,
)
    requires
        0 <= h < levels.len() - 1,
        is_run(levels[h], h == 0, run),
        sorted(run, rank_order::<T>()),
    ensures
        -pow2(h as nat) <= estimated_rank(compacted(levels, h, run, coin), x) - estimated_rank(
            levels,
            x,
        ) <= pow2(h as nat),
{
    lemma_estimate_after(levels, h, run, coin, x);
    lemma_halves_close(run, x);
    lemma_pow2_pos(h as nat);
    let w = pow2(h as nat) as int;
    let d = count_le(halved(run, coin), x) - count_le(halved(run, !coin), x);
    assert(-w <= d * w <= w) by (nonlinear_arith)
        requires
            -1 <= d <= 1,
            w > 0,
    ;
}

/// Taking an item in counts it exactly: the estimate of a rank grows by one where the item ranks
/// at or before the value asked for, and else stays.
pub proof fn law_ingestion_is_exact<T: TotalOrd>(v: SketchView<T>, val: T, x: T)
    requires
        v.levels.len() > 0,
    ensures
        estimated_rank(v.ingested(val).levels, x) == estimated_rank(v.levels, x) + if val.ranks_le(
            x,
        ) {
            1int
        } else {
            0int
        },
{
    let s = v.levels[0].push(val);
    lemma_sum_update(v.levels, level_rank(x), 0, s);
    assert(s.drop_last() =~= v.levels[0]);
    vstd::arithmetic::power2::lemma2_to64();
    let one = pow2(0int as nat);
    let before = count_le(v.levels[0], x);
    let after = count_le(s, x);
    assert(before * one == before && after * one == after) by (nonlinear_arith)
        requires
            one == 1,
    ;
}

/// No estimate of a rank exceeds the number of items taken in.
pub proof fn law_estimate_is_within_stream<T: TotalOrd>(v: SketchView<T>, x: T)
    requires
        v.sound(),
    ensures
        0 <= estimated_rank(v.levels, x) <= v.consumed,
{
    lemma_rank_within_weight(v.levels, x);
}

proof fn lemma_rank_within_weight<T: TotalOrd>(levels: Seq<Seq<T>>, x: T)
    ensures
        0 <= estimated_rank(levels, x) <= weight(levels),
    decreases levels.len(),
{
    if levels.len() > 0 {
        lemma_rank_within_weight(levels.drop_last(), x);
        lemma_count_within(levels.last(), x);
        let w = pow2((levels.len() - 1) as nat);
        let c = count_le(levels.last(), x);
        let n = levels.last().len();
        assert(0 <= c * w <= n * w) by (nonlinear_arith)
            requires
                c <= n,
        ;
    }
}

proof fn lemma_count_within<T: TotalOrd>(s: Seq<T>, x: T)
    ensures
        count_le(s, x) <= s.len(),
    decreases s.len(),
{
    if s.len() > 0 {
        lemma_count_within(s.drop_last(), x);
    }
}

/// Of the items of a run, no more are kept than there are: those that go up and the one that
/// stays are different ones.
proof fn lemma_half_copies<T>(run: Seq<T>, coin: bool, x: T)
    ensures
        halved(run, coin).to_multiset().count(x) + straggler(run).to_multiset().count(x)
            <= run.to_multiset().count(x),
    decreases run.len(),
{
    broadcast use vstd::seq_lib::group_to_multiset_ensures;

    let n = run.len() as int;
    if n % 2 == 1 {
        let rest = run.drop_last();
        lemma_half_copies(rest, coin, x);
        assert(run =~= rest.push(run.last()));
        assert(halved(run, coin) =~= halved(rest, coin));
        assert(straggler(run) =~= Seq::<T>::empty().push(run.last()));
    } else if n > 0 {
        let rest = run.take(n - 2);
        lemma_half_copies(rest, coin, x);
        assert(run =~= rest.push(run[n - 2]).push(run[n - 1]));
        let chosen = if coin {
            run[n - 1]
        } else {
            run[n - 2]
        };
        assert(halved(run, coin) =~= halved(rest, coin).push(chosen));
    } else {
        assert(halved(run, coin) =~= Seq::<T>::empty());
    }
}

/// Compacting a level leaves no item more often than it was there.
proof fn lemma_compacted_copies<T: TotalOrd>(
    levels: Seq<Seq<T>>,
    h: int,
    run: Seq<T>,
    coin: bool,
    x: T,
)
    requires
        0 <= h < levels.len() - 1,
        is_run(levels[h], h == 0, run),
    ensures
        copies(compacted(levels, h, run, coin), x) <= copies(levels, x),
{
    let f = level_copies(x);
    let mid = levels.update(h, straggler(run));
    let up = merged(levels[h + 1], halved(run, coin), rank_order::<T>());
    lemma_sum_update(levels, f, h, straggler(run));
    lemma_sum_update(mid, f, h + 1, up);
    law_merge_keeps_elements(levels[h + 1], halved(run, coin), rank_order::<T>());
    lemma_half_copies(run, coin, x);
}

/// A sketch invents nothing: after an update it holds no item more often than before, but for the
/// item taken in, which it may hold once more.
pub proof fn law_update_invents_nothing<T: TotalOrd>(
    pre: SketchView<T>,
    post: SketchView<T>,
    val: T,
    coin: bool,
    x: T,
)
    requires
        pre.valid(),
        pre.updates_to(post, val, coin),
    ensures
        copies(post.levels, x) <= copies(pre.levels, x) + if x == val {
            1int
        } else {
            0int
        },
{
    broadcast use vstd::seq_lib::group_to_multiset_ensures;

    let next = pre.ingested(val);
    lemma_sum_update(pre.levels, level_copies(x), 0, pre.levels[0].push(val));
    if held(next.levels) > pre.max_items {
        let (h, run) = choose|h: int, run: Seq<T>|
            {
                &&& next.is_first_full(h)
                &&& is_run(next.levels[h], h == 0, run)
                &&& post == #[trigger] next.compacted_at(h, run, coin)
            };
        let roomy = next.grown(h);
        assert(roomy.levels[h] == next.levels[h]);
        if h == next.levels.len() - 1 {
            lemma_sum_push(next.levels, level_copies(x), Seq::empty());
        }
        lemma_compacted_copies(roomy.levels, h, run, coin, x);
    }
}

} // verus!
