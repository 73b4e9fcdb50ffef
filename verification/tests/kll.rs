use polars_kernels::capacity::compactor_threshold;
use polars_kernels::cells::Float64;
use polars_kernels::kll::{merge_sorted, KLLSketch};
use polars_kernels::total_ord::TotalOrd;

fn held<T: TotalOrd>(sketch: &KLLSketch<T>) -> usize {
    (0..sketch.num_levels()).map(|h| sketch.level(h).len()).sum()
}

fn weight<T: TotalOrd>(sketch: &KLLSketch<T>) -> usize {
    (0..sketch.num_levels()).map(|h| sketch.level(h).len() << h).sum()
}

fn estimate(sketch: &KLLSketch<u64>, x: u64) -> usize {
    (0..sketch.num_levels())
        .map(|h| sketch.level(h).iter().filter(|y| **y <= x).count() << h)
        .sum()
}

#[test]
fn thresholds_shrink_by_two_thirds() {
    assert_eq!(compactor_threshold(100, 0), 100);
    assert_eq!(compactor_threshold(100, 1), 67);
    assert_eq!(compactor_threshold(100, 2), 45);
    assert_eq!(compactor_threshold(100, 3), 30);
    assert_eq!(compactor_threshold(9, 2), 4);
}

#[test]
fn thresholds_never_fall_below_two() {
    assert_eq!(compactor_threshold(0, 0), 2);
    assert_eq!(compactor_threshold(1, 5), 2);
    assert_eq!(compactor_threshold(100, 64), 2);
    assert_eq!(compactor_threshold(usize::MAX, 0), usize::MAX);
}

#[test]
fn merge_sorted_appends_and_prefers_the_first() {
    let mut out = vec![100u32];
    merge_sorted(&mut out, vec![1, 3, 5], vec![2, 3, 9]);
    assert_eq!(out, vec![100, 1, 2, 3, 3, 5, 9]);

    let negative_zero = Float64 { bits: 0x8000_0000_0000_0000 };
    let zero = Float64 { bits: 0 };
    let mut zeros: Vec<Float64> = Vec::new();
    merge_sorted(&mut zeros, vec![negative_zero], vec![zero]);
    assert_eq!(zeros[0].bits, 0x8000_0000_0000_0000);
    assert_eq!(zeros[1].bits, 0);
}

#[test]
fn an_empty_sketch_has_one_empty_level() {
    let sketch: KLLSketch<u64> = KLLSketch::new(4);
    assert_eq!(sketch.num_levels(), 1);
    assert_eq!(sketch.consumed_items(), 0);
    assert!(sketch.level(0).is_empty());
}

#[test]
fn items_wait_unsorted_until_there_are_too_many() {
    let mut sketch = KLLSketch::new(4);
    for x in [9u64, 3, 7, 1] {
        sketch.update_with(x, false);
    }
    assert_eq!(sketch.num_levels(), 1);
    assert_eq!(sketch.level(0), &[9, 3, 7, 1]);
}

#[test]
fn compaction_keeps_every_second_item_and_the_straggler() {
    let mut first = KLLSketch::new(4);
    let mut second = KLLSketch::new(4);
    for x in [9u64, 3, 7, 1, 5] {
        first.update_with(x, false);
        second.update_with(x, true);
    }
    // 1 3 | 5 7 | 9
    assert_eq!(first.num_levels(), 2);
    assert_eq!(first.level(1), &[1, 5]);
    assert_eq!(first.level(0), &[9]);
    assert_eq!(second.level(1), &[3, 7]);
    assert_eq!(second.level(0), &[9]);
    // Over both coins the estimates average to the true rank.
    for x in 0..10 {
        let truth = [9u64, 3, 7, 1, 5].iter().filter(|y| **y <= x).count();
        assert_eq!(estimate(&first, x) + estimate(&second, x), 2 * truth);
    }
}

#[test]
fn a_second_compaction_merges_into_the_level_above() {
    let mut sketch = KLLSketch::new(4);
    for x in [9u64, 3, 7, 1, 5] {
        sketch.update_with(x, false);
    }
    // The two levels hold at most 4 + 3 items; the eighth makes the base compact.
    for x in [4u64, 8, 2, 6, 0] {
        sketch.update_with(x, true);
    }
    assert_eq!(sketch.consumed_items(), 10);
    assert_eq!(weight(&sketch), 10);
    for h in 1..sketch.num_levels() {
        let level = sketch.level(h);
        assert!(level.windows(2).all(|w| w[0] <= w[1]));
    }
}

#[test]
fn a_long_stream_keeps_its_weight_and_fits() {
    let k = 50;
    let mut sketch = KLLSketch::new(k);
    let mut x: u64 = 12345;
    for n in 1..=20_000usize {
        x = x.wrapping_mul(6364136223846793005).wrapping_add(1442695040888963407);
        sketch.update(x >> 33);
        assert_eq!(sketch.consumed_items(), n);
    }
    assert_eq!(weight(&sketch), 20_000);
    assert!(held(&sketch) <= 3 * k + 2 * sketch.num_levels());
    assert!(1usize << (sketch.num_levels() - 1) <= 20_000);
    for h in 1..sketch.num_levels() {
        assert!(sketch.level(h).windows(2).all(|w| w[0] <= w[1]));
    }
}

#[test]
fn columns_are_taken_in_without_their_nulls() {
    let mut sketch = KLLSketch::new(4);
    sketch.update_all(&[Some(3u64), None, Some(1), None, None, Some(2)]);
    assert_eq!(sketch.consumed_items(), 3);
    assert_eq!(sketch.level(0), &[3, 1, 2]);
}

#[test]
fn the_coin_falls_both_ways() {
    let mut seen = [false, false];
    for _ in 0..200 {
        let mut sketch = KLLSketch::new(2);
        for x in [1u64, 2, 3] {
            sketch.update(x);
        }
        match sketch.level(1) {
            [1] => seen[0] = true,
            [2] => seen[1] = true,
            other => panic!("unexpected level {:?}", other),
        }
    }
    assert_eq!(seen, [true, true]);
}

#[test]
fn floats_rank_by_value_with_no_number_last() {
    let rank = |x: f64| Float64 { bits: x.to_bits() };
    let sorted = [f64::NEG_INFINITY, -2.5, -0.0, 0.0, 1e-300, 1.0, f64::INFINITY, f64::NAN];
    for (i, x) in sorted.iter().enumerate() {
        for (j, y) in sorted.iter().enumerate() {
            let expected = i <= j || (*x == 0.0 && *y == 0.0);
            assert_eq!(rank(*x).tot_le(&rank(*y)), expected, "{} {}", x, y);
        }
    }
    assert!(rank(f64::NAN).tot_le(&rank(-f64::NAN)));
    assert!(rank(-f64::NAN).tot_le(&rank(f64::NAN)));
    assert!(!(rank(f64::NAN) <= rank(f64::NAN)));
    assert!(rank(-0.0) == rank(0.0));
    assert!(rank(f64::NAN) != rank(f64::NAN));
    assert!(rank(-1.0) < rank(1.0));
    assert_eq!(rank(-2.0).tot_cmp(&rank(1.0)), std::cmp::Ordering::Less);
    assert_eq!(rank(f64::NAN).tot_cmp(&rank(1.0)), std::cmp::Ordering::Greater);
}

#[test]
fn a_compaction_moves_an_estimate_by_at_most_its_weight() {
    let stream = [9u64, 3, 7, 1, 5, 4, 8, 2];
    for coin in [false, true] {
        let mut sketch = KLLSketch::new(4);
        for x in stream {
            let before: Vec<usize> = (0..11).map(|y| estimate(&sketch, y)).collect();
            sketch.update_with(x, coin);
            for y in 0..11u64 {
                let exact = before[y as usize] + if x <= y { 1 } else { 0 };
                assert!(estimate(&sketch, y).abs_diff(exact) <= 1);
                assert!(estimate(&sketch, y) <= sketch.consumed_items());
            }
            for h in 0..sketch.num_levels() {
                assert!(sketch.level(h).iter().all(|y| stream.contains(y)));
            }
        }
    }
}

#[test]
fn a_full_middle_level_is_compacted_into_a_new_top() {
    let mut sketch = KLLSketch::new(2);
    for x in 1..=9u64 {
        sketch.update_with(x, false);
    }
    assert!(sketch.num_levels() >= 3);
    assert_eq!(weight(&sketch), 9);
}
