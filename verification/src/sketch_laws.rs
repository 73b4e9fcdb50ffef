//! What a sketch makes of a stream, said of the items themselves.
use crate::capacity::{capacity, ceil_div, lemma_threshold_bounds, threshold};
use crate::kll_laws::{
    law_compaction_error_is_bounded, law_ingestion_is_exact, law_update_invents_nothing,
    law_update_keeps_valid, lemma_ingested_sound, lemma_sum_push,
};
use crate::kll_model::{
    copies, count_le, estimated_rank, feeds, halved, held, is_run, level_rank, level_weight,
    present, weight, SketchView,
};
use crate::merge::{merged, sorted};
use crate::merge_laws::law_merge_keeps_elements;
use crate::total_ord::{rank_order, TotalOrd};
use vstd::arithmetic::power::{lemma_pow_positive, pow};
use vstd::arithmetic::power2::{lemma_pow2_pos, lemma_pow2_strictly_increases, pow2};
use vstd::prelude::*;

verus! {

/// The capacity of the compactor `depth` below the top one is the least number, but not less than
/// two, that is at least `k` times two thirds to the power of `depth`.
pub proof fn law_threshold_is_least(k: nat, depth: nat)
    ensures
        threshold(k, depth) >= 2,
        threshold(k, depth) * pow(3, depth) >= k * pow(2, depth),
        threshold(k, depth) > 2 ==> (threshold(k, depth) - 1) * pow(3, depth) < k * pow(2, depth),
{
    lemma_pow_positive(3, depth);
    lemma_threshold_bounds(k, depth);
    let a = k * pow(2, depth);
    let b = pow(3, depth);
    let up = ceil_div(a, b);
    vstd::arithmetic::div_mod::lemma_fundamental_div_mod(a + b - 1, b);
    vstd::arithmetic::div_mod::lemma_mod_bound(a + b - 1, b);
    let r = (a + b - 1) % b;
    assert(up * b >= a && (up - 1) * b < a) by (nonlinear_arith)
        requires
            a + b - 1 == b * up + r,
            0 <= r < b,
    ;
    let t = threshold(k, depth) as int;
    assert(t * b >= a) by (nonlinear_arith)
        requires
            t >= up,
            up * b >= a,
            b > 0,
    ;
}

/// One more compactor adds its own capacity.
pub proof fn law_capacity_adds_up(k: nat, height: nat)
    ensures
        capacity(k, 0) == 0,
        capacity(k, height + 1) == capacity(k, height) + threshold(k, height),
{
}

/// What the levels hold is what they hold all together.
pub proof fn law_held_counts_every_item<T>(levels: Seq<Seq<T>>, x: T)
    ensures
        held(levels) == levels.flatten().len(),
        copies(levels, x) == levels.flatten().to_multiset().count(x),
    decreases levels.len(),
{
    broadcast use vstd::seq_lib::group_to_multiset_ensures;

    if levels.len() > 0 {
        let rest = levels.drop_last();
        law_held_counts_every_item(rest, x);
        rest.lemma_flatten_push(levels.last());
        assert(rest.push(levels.last()) =~= levels);
        vstd::seq_lib::lemma_multiset_commutative(rest.flatten(), levels.last());
    } else {
        assert(levels.flatten() =~= Seq::<T>::empty());
    }
}

/// An item of the level at height `h` stands for `2^h` items of the stream, and counts as often
/// where it ranks at or before the value asked for.
pub proof fn law_an_item_stands_for_a_power_of_two<T: TotalOrd>(
    levels: Seq<Seq<T>>,
    top: Seq<T>,
    x: T,
)
    ensures
        weight(Seq::<Seq<T>>::empty()) == 0,
        weight(levels.push(top)) == weight(levels) + top.len() * pow2(levels.len()),
        estimated_rank(Seq::<Seq<T>>::empty(), x) == 0,
        estimated_rank(levels.push(top), x) == estimated_rank(levels, x) + top.filter(
            |y: T| y.ranks_le(x),
        ).len() * pow2(levels.len()),
{
    lemma_sum_push(levels, level_weight(), top);
    lemma_sum_push(levels, level_rank(x), top);
    lemma_count_filters(top, x);
}

/// The items that rank at or before `x` are counted one by one.
proof fn lemma_count_filters<T: TotalOrd>(s: Seq<T>, x: T)
    ensures
        count_le(s, x) == s.filter(|y: T| y.ranks_le(x)).len(),
    decreases s.len(),
{
    reveal(Seq::filter);
    if s.len() > 0 {
        lemma_count_filters(s.drop_last(), x);
    }
}

/// One item is taken in. While there is room for it, it goes to the end of the base level and
/// nothing else changes.
pub proof fn law_update_appends_while_there_is_room<T: TotalOrd>(
    pre: SketchView<T>,
    post: SketchView<T>,
    val: T,
    coin: bool,
)
    requires
        pre.valid(),
        pre.consumed < usize::MAX,
        pre.updates_to(post, val, coin),
    ensures
        post.consumed == pre.consumed + 1,
        post.k == pre.k,
        pre.levels.flatten().len() < pre.max_items ==> {
            &&& post.levels == pre.levels.update(0, pre.levels[0].push(val))
            &&& post.max_items == pre.max_items
        },
{
    law_update_keeps_valid(pre, post, val, coin);
    lemma_ingested_sound(pre, val);
    law_held_counts_every_item(pre.levels, val);
}

/// Where there is no room left, the lowest level that has reached its capacity is compacted: its
/// items in ascending rank are taken in pairs, of each pair the first or, on `coin`, the second
/// goes up into the level above, in its place by rank, and only an item without a partner stays.
/// Gives the height of that level, its items in ascending rank, and those that go up.
pub proof fn law_update_compacts<T: TotalOrd>(
    pre: SketchView<T>,
    post: SketchView<T>,
    val: T,
    coin: bool,
) -> (out: (int, Seq<T>, Seq<T>))
    requires
        pre.valid(),
        pre.consumed < usize::MAX,
        pre.updates_to(post, val, coin),
        pre.levels.flatten().len() >= pre.max_items,
    ensures
        ({
            let (h, run, kept) = out;
            let n = pre.levels.len();
            let taken = pre.levels.update(0, pre.levels[0].push(val));
            let above = if h + 1 < n {
                taken[h + 1]
            } else {
                Seq::empty()
            };
            &&& 0 <= h < n
            &&& taken[h].len() >= threshold(pre.k, (n - h - 1) as nat)
            &&& forall|i: int|
                0 <= i < h ==> (#[trigger] post.levels[i]).len() < threshold(
                    pre.k,
                    (n - i - 1) as nat,
                )
            &&& run.to_multiset() == taken[h].to_multiset()
            &&& forall|i: int, j: int|
                0 <= i < j < run.len() ==> (#[trigger] run[i]).ranks_le(#[trigger] run[j])
            &&& h > 0 ==> run == taken[h]
            &&& kept.len() == run.len() / 2
            &&& forall|i: int|
                0 <= i < kept.len() ==> #[trigger] kept[i] == if coin {
                    run[2 * i + 1]
                } else {
                    run[2 * i]
                }
            &&& post.levels.len() == if h + 1 < n {
                n
            } else {
                n + 1
            }
            &&& post.max_items == if h + 1 < n {
                pre.max_items
            } else {
                pre.max_items + threshold(pre.k, n)
            }
            &&& forall|i: int|
                0 <= i < n && i != h && i != h + 1 ==> #[trigger] post.levels[i] == taken[i]
            &&& post.levels[h] == if run.len() % 2 == 1 {
                seq![run[run.len() - 1]]
            } else {
                Seq::empty()
            }
            &&& post.levels[h + 1] == merged(above, kept, rank_order::<T>())
            &&& post.levels[h + 1].to_multiset() == above.to_multiset().add(
                kept.to_multiset(),
            )
            &&& forall|i: int, j: int|
                0 <= i < j < post.levels[h + 1].len() ==> (
                #[trigger] post.levels[h + 1][i]).ranks_le(#[trigger] post.levels[h + 1][j])
        }),
{
    let next = pre.ingested(val);
    law_update_keeps_valid(pre, post, val, coin);
    lemma_ingested_sound(pre, val);
    law_held_counts_every_item(pre.levels, val);
    let (h, run) = choose|h: int, run: Seq<T>|
        {
            &&& next.is_first_full(h)
            &&& is_run(next.levels[h], h == 0, run)
            &&& post == #[trigger] next.compacted_at(h, run, coin)
        };
    let n = pre.levels.len();
    let taken = pre.levels.update(0, pre.levels[0].push(val));
    assert(taken == next.levels);
    let above = if h + 1 < n {
        taken[h + 1]
    } else {
        Seq::empty()
    };
    let kept = halved(run, coin);
    let le = rank_order::<T>();
    assert(sorted(run, le));
    assert forall|i: int, j: int| 0 <= i < j < run.len() implies (#[trigger] run[i]).ranks_le(
        #[trigger] run[j],
    ) by {
        assert(le(run[i], run[j]));
    }
    assert forall|i: int| 0 <= i < h implies (#[trigger] post.levels[i]).len() < threshold(
        pre.k,
        (n - i - 1) as nat,
    ) by {
        assert(!next.is_full(i));
    }
    law_merge_keeps_elements(above, kept, le);
    let up = post.levels[h + 1];
    assert(up == merged(above, kept, le));
    assert(sorted(up, le));
    assert forall|i: int, j: int| 0 <= i < j < up.len() implies (#[trigger] up[i]).ranks_le(
        #[trigger] up[j],
    ) by {
        assert(le(up[i], up[j]));
    }
    (h, run, kept)
}

/// The values of a column that are there are counted one by one.
pub proof fn law_present_counts_what_is_there<T>(values: Seq<Option<T>>)
    ensures
        present(values) == values.filter_map(|v: Option<T>| v).len(),
    decreases values.len(),
{
    if values.len() > 0 {
        law_present_counts_what_is_there(values.drop_last());
    }
}

/// A column is taken in whole: as long as its values fit the room, the base level after is the
/// base level before, followed by exactly the values of the column that are not null, in their
/// order, and nothing else changes.
pub proof fn law_column_is_taken_in_order<T: TotalOrd>(
    pre: SketchView<T>,
    values: Seq<Option<T>>,
    post: SketchView<T>,
)
    requires
        pre.valid(),
        pre.consumed + values.filter_map(|v: Option<T>| v).len() <= usize::MAX,
        feeds(pre, values, post),
        pre.levels.flatten().len() + values.filter_map(|v: Option<T>| v).len() <= pre.max_items,
    ensures
        post.levels == pre.levels.update(
            0,
            pre.levels[0] + values.filter_map(|v: Option<T>| v),
        ),
        post.consumed == pre.consumed + values.filter_map(|v: Option<T>| v).len(),
        post.max_items == pre.max_items,
        post.k == pre.k,
        post.valid(),
        post.levels.flatten().len() == pre.levels.flatten().len() + values.filter_map(
            |v: Option<T>| v,
        ).len(),
    decreases values.len(),
{
    let given = values.filter_map(|v: Option<T>| v);
    if values.len() == 0 {
        assert(post.levels =~= pre.levels.update(0, pre.levels[0] + given));
    } else {
        let rest = values.drop_last();
        let before = rest.filter_map(|v: Option<T>| v);
        match values.last() {
            None => {
                law_column_is_taken_in_order(pre, rest, post);
            },
            Some(val) => {
                let (mid, coin) = choose|mid: SketchView<T>, coin: bool|
                    feeds(pre, rest, mid) && #[trigger] mid.updates_to(post, val, coin);
                assert(given == before + seq![val]);
                law_column_is_taken_in_order(pre, rest, mid);
                law_update_keeps_valid(mid, post, val, coin);
                law_update_appends_while_there_is_room(mid, post, val, coin);
                lemma_ingested_sound(mid, val);
                law_held_counts_every_item(mid.levels, val);
                law_held_counts_every_item(post.levels, val);
                assert(mid.levels[0].push(val) =~= pre.levels[0] + given);
                assert(post.levels =~= pre.levels.update(0, pre.levels[0] + given));
            },
        }
    }
}

/// A column can be taken in piece by piece: taking in one part and then the other is taking in the
/// whole.
pub proof fn law_columns_can_be_taken_in_pieces<T: TotalOrd>(
    pre: SketchView<T>,
    a: Seq<Option<T>>,
    b: Seq<Option<T>>,
    post: SketchView<T>,
)
    ensures
        feeds(pre, a + b, post) <==> exists|mid: SketchView<T>| #[trigger]
            feeds(pre, a, mid) && feeds(mid, b, post),
    decreases b.len(),
{
    if b.len() == 0 {
        assert(a + b =~= a);
        if feeds(pre, a + b, post) {
            assert(feeds(pre, a, post) && feeds(post, b, post));
        }
    } else {
        let rest = b.drop_last();
        assert((a + b).drop_last() =~= a + rest);
        assert((a + b).last() == b.last());
        match b.last() {
            None => {
                law_columns_can_be_taken_in_pieces(pre, a, rest, post);
                if exists|mid: SketchView<T>| #[trigger]
                    feeds(pre, a, mid) && feeds(mid, rest, post) {
                    let mid = choose|mid: SketchView<T>| #[trigger]
                        feeds(pre, a, mid) && feeds(mid, rest, post);
                    assert(feeds(pre, a, mid) && feeds(mid, b, post));
                }
                if exists|mid: SketchView<T>| #[trigger] feeds(pre, a, mid) && feeds(mid, b, post) {
                    let mid = choose|mid: SketchView<T>| #[trigger]
                        feeds(pre, a, mid) && feeds(mid, b, post);
                    assert(feeds(pre, a, mid) && feeds(mid, rest, post));
                }
            },
            Some(val) => {
                if feeds(pre, a + b, post) {
                    let (last, coin) = choose|last: SketchView<T>, coin: bool|
                        feeds(pre, a + rest, last) && #[trigger] last.updates_to(post, val, coin);
                    law_columns_can_be_taken_in_pieces(pre, a, rest, last);
                    let mid = choose|mid: SketchView<T>| #[trigger]
                        feeds(pre, a, mid) && feeds(mid, rest, last);
                    assert(feeds(mid, rest, last) && last.updates_to(post, val, coin));
                    assert(feeds(mid, b, post));
                }
                if exists|mid: SketchView<T>| #[trigger] feeds(pre, a, mid) && feeds(mid, b, post) {
                    let mid = choose|mid: SketchView<T>| #[trigger]
                        feeds(pre, a, mid) && feeds(mid, b, post);
                    let (last, coin) = choose|last: SketchView<T>, coin: bool|
                        feeds(mid, rest, last) && #[trigger] last.updates_to(post, val, coin);
                    law_columns_can_be_taken_in_pieces(pre, a, rest, last);
                    assert(feeds(pre, a + rest, last) && last.updates_to(post, val, coin));
                    assert(feeds(pre, a + b, post));
                }
            },
        }
    }
}

/// Taking in a column of one value is taking in that value, and a null changes nothing.
pub proof fn law_a_column_of_one_value_is_that_value<T: TotalOrd>(
    pre: SketchView<T>,
    val: T,
    post: SketchView<T>,
)
    ensures
        feeds(pre, seq![Some(val)], post) <==> exists|coin: bool| #[trigger]
            pre.updates_to(post, val, coin),
        feeds(pre, seq![None::<T>], post) <==> post == pre,
        feeds(pre, Seq::<Option<T>>::empty(), post) <==> post == pre,
{
    let one = seq![Some(val)];
    let none = seq![None::<T>];
    assert(one.drop_last() =~= Seq::<Option<T>>::empty());
    assert(one.last() == Some(val) && one.len() == 1);
    assert(none.drop_last() =~= Seq::<Option<T>>::empty());
    assert(none.last() is None && none.len() == 1);
    assert(feeds(pre, none.drop_last(), post) <==> post == pre);
    assert(feeds(pre, one.drop_last(), pre));
    if exists|coin: bool| #[trigger] pre.updates_to(post, val, coin) {
        let coin = choose|coin: bool| #[trigger] pre.updates_to(post, val, coin);
        match one.last() {
            Some(v) => {
                assert(feeds(pre, one.drop_last(), pre) && pre.updates_to(post, v, coin));
                assert(feeds(pre, one, post));
            },
            None => {},
        }
    }
    if feeds(pre, one, post) {
        let (mid, coin) = choose|mid: SketchView<T>, coin: bool|
            feeds(pre, one.drop_last(), mid) && #[trigger] mid.updates_to(post, val, coin);
        assert(mid == pre);
        assert(pre.updates_to(post, val, coin));
    }
}

/// How far the estimate of a rank can be off after one update, and that levels are not taken away.
proof fn lemma_update_error<T: TotalOrd>(
    pre: SketchView<T>,
    post: SketchView<T>,
    val: T,
    coin: bool,
    x: T,
)
    requires
        pre.valid(),
        pre.consumed < usize::MAX,
        pre.updates_to(post, val, coin),
    ensures
        post.levels.len() >= pre.levels.len(),
        ({
            let off = estimated_rank(post.levels, x) - estimated_rank(pre.levels, x)
                - if val.ranks_le(x) {
                1int
            } else {
                0int
            };
            let most = if post.levels.len() >= 2 {
                pow2((post.levels.len() - 2) as nat) as int
            } else {
                0
            };
            -most <= off <= most
        }),
{
    let next = pre.ingested(val);
    lemma_ingested_sound(pre, val);
    law_ingestion_is_exact(pre, val, x);
    if post.levels.len() >= 2 {
        lemma_pow2_pos((post.levels.len() - 2) as nat);
    }
    if held(next.levels) > pre.max_items {
        let (h, run) = choose|h: int, run: Seq<T>|
            {
                &&& next.is_first_full(h)
                &&& is_run(next.levels[h], h == 0, run)
                &&& post == #[trigger] next.compacted_at(h, run, coin)
            };
        let roomy = next.grown(h);
        if h == next.levels.len() - 1 {
            lemma_sum_push(next.levels, level_rank(x), Seq::empty());
            assert(count_le(Seq::<T>::empty(), x) == 0);
        }
        assert(roomy.levels[h] == next.levels[h]);
        assert(sorted(run, rank_order::<T>()));
        law_compaction_error_is_bounded(roomy.levels, h, run, coin, x);
        let top = (post.levels.len() - 2) as nat;
        if h < top {
            lemma_pow2_strictly_increases(h as nat, top);
        }
    }
}

/// After a column was taken in, the estimate of the rank of any `x` has grown by the number of the
/// column's values that are not null and rank at or before `x`, up to the error of the compactions
/// on the way: at most one per value, each of at most `2^(height - 2)`, and none where there is one
/// level.
pub proof fn law_column_moves_estimates_by_its_counts<T: TotalOrd>(
    pre: SketchView<T>,
    values: Seq<Option<T>>,
    post: SketchView<T>,
    x: T,
)
    requires
        pre.valid(),
        pre.consumed + values.filter_map(|v: Option<T>| v).len() <= usize::MAX,
        feeds(pre, values, post),
    ensures
        post.valid(),
        post.consumed == pre.consumed + values.filter_map(|v: Option<T>| v).len(),
        post.levels.len() >= pre.levels.len(),
        ({
            let given = values.filter_map(|v: Option<T>| v);
            let off = estimated_rank(post.levels, x) - estimated_rank(pre.levels, x) - given.filter(
                |y: T| y.ranks_le(x),
            ).len();
            let most = if post.levels.len() >= 2 {
                pow2((post.levels.len() - 2) as nat) as int
            } else {
                0
            };
            -(given.len() * most) <= off <= given.len() * most
        }),
    decreases values.len(),
{
    reveal(Seq::filter);
    let f = |y: T| y.ranks_le(x);
    let given = values.filter_map(|v: Option<T>| v);
    if values.len() > 0 {
        let rest = values.drop_last();
        let before = rest.filter_map(|v: Option<T>| v);
        match values.last() {
            None => {
                law_column_moves_estimates_by_its_counts(pre, rest, post, x);
            },
            Some(val) => {
                let (mid, coin) = choose|mid: SketchView<T>, coin: bool|
                    feeds(pre, rest, mid) && #[trigger] mid.updates_to(post, val, coin);
                assert(given == before + seq![val]);
                assert(given.drop_last() =~= before);
                law_column_moves_estimates_by_its_counts(pre, rest, mid, x);
                law_update_keeps_valid(mid, post, val, coin);
                lemma_update_error(mid, post, val, coin, x);
                let n = before.len() as int;
                let small = if mid.levels.len() >= 2 {
                    pow2((mid.levels.len() - 2) as nat) as int
                } else {
                    0
                };
                let most = if post.levels.len() >= 2 {
                    pow2((post.levels.len() - 2) as nat) as int
                } else {
                    0
                };
                if post.levels.len() >= 2 {
                    lemma_pow2_pos((post.levels.len() - 2) as nat);
                }
                if 2 <= mid.levels.len() < post.levels.len() {
                    lemma_pow2_strictly_increases(
                        (mid.levels.len() - 2) as nat,
                        (post.levels.len() - 2) as nat,
                    );
                }
                assert(n * small <= n * most && (n + 1) * most == n * most + most)
                    by (nonlinear_arith)
                    requires
                        n >= 0,
                        small <= most,
                ;
            },
        }
    } else {
        assert(given.filter(f).len() == 0);
    }
}

/// A column brings nothing but its values: after it was taken in, no item is held more often than
/// before and as often as it is among the values that are not null.
pub proof fn law_column_brings_only_its_values<T: TotalOrd>(
    pre: SketchView<T>,
    values: Seq<Option<T>>,
    post: SketchView<T>,
    x: T,
)
    requires
        pre.valid(),
        pre.consumed + values.filter_map(|v: Option<T>| v).len() <= usize::MAX,
        feeds(pre, values, post),
    ensures
        post.levels.flatten().to_multiset().count(x) <= pre.levels.flatten().to_multiset().count(x)
            + values.filter_map(|v: Option<T>| v).to_multiset().count(x),
    decreases values.len(),
{
    broadcast use vstd::seq_lib::group_to_multiset_ensures;

    let given = values.filter_map(|v: Option<T>| v);
    if values.len() > 0 {
        let rest = values.drop_last();
        let before = rest.filter_map(|v: Option<T>| v);
        match values.last() {
            None => {
                law_column_brings_only_its_values(pre, rest, post, x);
            },
            Some(val) => {
                let (mid, coin) = choose|mid: SketchView<T>, coin: bool|
                    feeds(pre, rest, mid) && #[trigger] mid.updates_to(post, val, coin);
                assert(given =~= before.push(val));
                law_column_brings_only_its_values(pre, rest, mid, x);
                law_column_moves_estimates_by_its_counts(pre, rest, mid, x);
                law_update_invents_nothing(mid, post, val, coin, x);
                law_held_counts_every_item(mid.levels, x);
                law_held_counts_every_item(post.levels, x);
            },
        }
    }
}

} // verus!
