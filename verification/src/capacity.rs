//! How many items the compactors of a sketch may hold.
use crate::sketch_laws::law_threshold_is_least;
use vstd::arithmetic::power::{lemma_pow0, lemma_pow_increases, lemma_pow_positive, pow};
use vstd::prelude::*;

verus! {

/// The deepest compactor whose capacity can be asked for: a stream of `usize::MAX` items never
/// needs a deeper one.
pub const MAX_DEPTH: usize = 64;

/// `a / b`, rounded up.
pub open spec fn ceil_div(a: int, b: int) -> int {
    (a + b - 1) / b
}

/// The capacity of the compactor `depth` below the top one: each holds two thirds of the one
/// above it, starting from `k`, rounded up, and none holds fewer than two items.
pub open spec fn threshold(k: nat, depth: nat) -> nat {
    let share = ceil_div(k * pow(2, depth), pow(3, depth));
    if share < 2 {
        2
    } else {
        share as nat
    }
}

/// The items that `height` compactors hold together when each is filled to its capacity.
pub open spec fn capacity(k: nat, height: nat) -> nat
    decreases height,
{
    if height == 0 {
        0
    } else {
        capacity(k, (height - 1) as nat) + threshold(k, (height - 1) as nat)
    }
}

/// Dividing and rounding up, from quotient and remainder.
proof fn lemma_ceil_div(a: int, b: int, q: int, r: int)
    requires
        b > 0,
        a == q * b + r,
        0 <= r < b,
    ensures
        ceil_div(a, b) == if r > 0 {
            q + 1
        } else {
            q
        },
{
    let up: int = if r > 0 {
        q + 1
    } else {
        q
    };
    let rem = a + b - 1 - up * b;
    assert(up * b == q * b + if r > 0 {
        b
    } else {
        0
    }) by (nonlinear_arith)
        requires
            up == if r > 0 {
                q + 1
            } else {
                q
            },
    ;
    vstd::arithmetic::div_mod::lemma_fundamental_div_mod_converse(a + b - 1, b, up, rem);
}

/// A capacity is at least two, and above the exact share by less than two items.
pub proof fn lemma_threshold_bounds(k: nat, depth: nat)
    ensures
        threshold(k, depth) >= 2,
        threshold(k, depth) <= k || threshold(k, depth) == 2,
        threshold(k, depth) * pow(3, depth) <= k * pow(2, depth) + 2 * pow(3, depth),
{
    lemma_pow_positive(2, depth);
    lemma_pow_positive(3, depth);
    let a = k * pow(2, depth);
    let b = pow(3, depth);
    assert(a >= 0) by (nonlinear_arith)
        requires
            a == k * pow(2, depth),
            pow(2, depth) > 0,
            k >= 0,
    ;
    vstd::arithmetic::div_mod::lemma_fundamental_div_mod(a, b);
    let q = a / b;
    let r = a % b;
    assert(a == q * b + r) by (nonlinear_arith)
        requires
            a == b * q + r,
    ;
    lemma_ceil_div(a, b, q, r);
    lemma_pow_two_three(depth);
    assert(a <= k * b) by (nonlinear_arith)
        requires
            a == k * pow(2, depth),
            pow(2, depth) <= b,
            k >= 0,
    ;
    let up = ceil_div(a, b);
    assert(up <= k) by (nonlinear_arith)
        requires
            a <= k * b,
            a == q * b + r,
            0 <= r < b,
            up == if r > 0 {
                q + 1
            } else {
                q
            },
    ;
    let t = threshold(k, depth);
    assert(t * b <= a + 2 * b) by (nonlinear_arith)
        requires
            a >= 0,
            b > 0,
            a == q * b + r,
            0 <= r < b,
            up == if r > 0 {
                q + 1
            } else {
                q
            },
            t == up || t == 2,
    ;
}

/// Powers of two stay below powers of three.
proof fn lemma_pow_two_three(depth: nat)
    ensures
        pow(2, depth) <= pow(3, depth),
    decreases depth,
{
    reveal(pow);
    if depth > 0 {
        lemma_pow_positive(2, (depth - 1) as nat);
        lemma_pow_two_three((depth - 1) as nat);
    }
}

/// The top compactor holds `k` items.
pub proof fn lemma_threshold_top(k: nat)
    requires
        k >= 2,
    ensures
        threshold(k, 0) == k,
        capacity(k, 1) == k,
{
    lemma_pow0(2);
    lemma_pow0(3);
    assert(k * 1 == k);
    reveal_with_fuel(capacity, 2);
}

/// The capacities are a geometric series: however many compactors there are, together they hold
/// no more than `3 * k` items and two for each compactor.
pub proof fn law_capacity_is_linear(k: nat, height: nat)
    ensures
        capacity(k, height) <= 3 * k + 2 * height,
{
    lemma_capacity_series(k, height);
    lemma_pow_positive(2, height);
    lemma_pow_positive(3, height);
    let s = capacity(k, height) - 2 * height;
    let p2 = pow(2, height);
    let p3 = pow(3, height);
    assert(s <= 3 * k) by (nonlinear_arith)
        requires
            s * p3 <= 3 * k * (p3 - p2),
            p3 > 0,
            p2 > 0,
            k >= 0,
    ;
}

proof fn lemma_capacity_series(k: nat, height: nat)
    ensures
        (capacity(k, height) - 2 * height) * pow(3, height) <= 3 * k * (pow(3, height) - pow(
            2,
            height,
        )),
    decreases height,
{
    reveal(pow);
    if height == 0 {
        assert((capacity(k, height) - 2 * height) == 0);
    } else {
        let h = (height - 1) as nat;
        lemma_capacity_series(k, h);
        lemma_threshold_bounds(k, h);
        let p2 = pow(2, h);
        let p3 = pow(3, h);
        let t = threshold(k, h) as int;
        let s = capacity(k, h) - 2 * h;
        assert(pow(2, height) == 2 * p2);
        assert(pow(3, height) == 3 * p3);
        assert(capacity(k, height) - 2 * height == s + (t - 2));
        assert((s + (t - 2)) * (3 * p3) <= 3 * k * (3 * p3 - 2 * p2)) by (nonlinear_arith)
            requires
                s * p3 <= 3 * k * (p3 - p2),
                t * p3 <= k * p2 + 2 * p3,
        ;
    }
}

/// The number of items at which the compactor `depth` below the top one is compacted.
pub fn compactor_threshold(k: usize, depth: usize) -> (items: usize)
    requires
        depth <= MAX_DEPTH,
    ensures
        items == threshold(k as nat, depth as nat),
        items >= 2,
        items * pow(3, depth as nat) >= k * pow(2, depth as nat),
        items > 2 ==> (items - 1) * pow(3, depth as nat) < k * pow(2, depth as nat),
{
    let mut twos: u128 = 1;
    let mut threes: u128 = 1;
    let mut d: usize = 0;
    proof {
        lemma_pow0(2);
        lemma_pow0(3);
        assert(pow(2, 64) == 0x1_0000_0000_0000_0000 && pow(3, 64)
            < 0x100_0000_0000_0000_0000_0000_0000) by {
            reveal(pow);
            reveal_with_fuel(pow, 65);
        }
    }
    while d < depth
        invariant
            d <= depth <= 64,
            twos == pow(2, d as nat),
            threes == pow(3, d as nat),
            pow(2, 64) == 0x1_0000_0000_0000_0000,
            pow(3, 64) < 0x100_0000_0000_0000_0000_0000_0000,
        decreases depth - d,
    {
        proof {
            reveal(pow);
            lemma_pow_increases(2, d as nat + 1, 64);
            lemma_pow_increases(3, d as nat + 1, 64);
        }
        twos = 2 * twos;
        threes = 3 * threes;
        d += 1;
    }
    proof {
        lemma_pow_increases(2, depth as nat, 64);
        lemma_pow_positive(3, depth as nat);
        assert(k as int * twos as int <= u128::MAX) by (nonlinear_arith)
            requires
                0 <= k <= u64::MAX,
                0 <= twos <= 0x1_0000_0000_0000_0000,
        ;
    }
    let scaled: u128 = k as u128 * twos;
    let quotient: u128 = scaled / threes;
    let remainder: u128 = scaled % threes;
    proof {
        vstd::arithmetic::div_mod::lemma_fundamental_div_mod(scaled as int, threes as int);
        assert(scaled as int == quotient as int * threes as int + remainder as int)
            by (nonlinear_arith)
            requires
                scaled as int == threes as int * quotient as int + remainder as int,
        ;
        lemma_ceil_div(scaled as int, threes as int, quotient as int, remainder as int);
        lemma_threshold_bounds(k as nat, depth as nat);
        law_threshold_is_least(k as nat, depth as nat);
    }
    if quotient < 2 && (quotient == 0 || remainder == 0) {
        2
    } else if remainder > 0 {
        quotient as usize + 1
    } else {
        quotient as usize
    }
}

} // verus!
