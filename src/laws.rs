use vstd::prelude::*;
use vstd::set_lib::{lemma_int_range, lemma_subset_equality, set_int_range};

use crate::bits::lemma_empty_mask;
use crate::encoder::{
    encodes, is_rank_order, is_table_for, led_on, levels_valid, precedes, rank_level, still_on, step_len, PwmStep,
    LED_COUNT, PERIOD, STEP_COUNT,
};

verus! {

/// Sum of the lengths of the first `n` steps.
pub open spec fn total_length(steps: Seq<PwmStep>, n: int) -> int
    decreases n,
{
    if n <= 0 {
        0
    } else {
        total_length(steps, n - 1) + steps[n - 1].length
    }
}

/// Number of LEDs among `0..n` that are on in mask `d`.
pub open spec fn active_count(d: u32, n: nat) -> nat
    decreases n,
{
    if n == 0 {
        0
    } else {
        active_count(d, (n - 1) as nat) + if led_on(d, (n - 1) as u32) {
            1nat
        } else {
            0nat
        }
    }
}

/// LED `k` is on during step `i` and off from step `i + 1` on.
pub open spec fn turns_off(steps: Seq<PwmStep>, i: int, k: u32) -> bool {
    led_on(steps[i].data, k) && !led_on(steps[i + 1].data, k)
}

/// How long LED `k` is on during the first `n` steps.
pub open spec fn on_time(steps: Seq<PwmStep>, k: u32, n: int) -> int
    decreases n,
{
    if n <= 0 {
        0
    } else {
        on_time(steps, k, n - 1) + if led_on(steps[n - 1].data, k) {
            steps[n - 1].length as int
        } else {
            0
        }
    }
}

/// Every LED index appears in a rank order.
pub proof fn lemma_order_covers(levels: Seq<u32>, order: Seq<usize>)
    requires
        is_rank_order(levels, order),
    ensures
        forall|k: u32| k < LED_COUNT ==> !#[trigger] still_on(order, LED_COUNT as int, k),
{
    let s = Seq::new(8, |j: int| order[j] as int);
    assert forall|i: int, j: int| 0 <= i < s.len() && 0 <= j < s.len() && i != j implies s[i]
        != s[j] by {
        if i < j {
            assert(precedes(levels, order[i] as int, order[j] as int));
        } else {
            assert(precedes(levels, order[j] as int, order[i] as int));
        }
    }
    assert(s.no_duplicates());
    s.unique_seq_to_set();
    lemma_int_range(0, 8);
    assert(s.to_set().subset_of(set_int_range(0, 8)));
    lemma_subset_equality(s.to_set(), set_int_range(0, 8));
    assert forall|k: u32| k < LED_COUNT implies !#[trigger] still_on(order, LED_COUNT as int, k) by {
        assert(set_int_range(0, 8).contains(k as int));
        assert(s.to_set().contains(k as int));
        let j = choose|j: int| 0 <= j < s.len() && s[j] == k as int;
        assert(order[j] == k as usize);
    }
}

proof fn lemma_prefix_length(levels: Seq<u32>, order: Seq<usize>, steps: Seq<PwmStep>, n: int)
    requires
        is_table_for(levels, order, steps),
        0 <= n <= LED_COUNT,
    ensures
        total_length(steps, n) == rank_level(levels, order, n - 1),
    decreases n,
{
    if n > 0 {
        lemma_prefix_length(levels, order, steps, n - 1);
        assert(steps[n - 1].length == step_len(levels, order, n - 1));
    }
}

/// Over one refresh period the step lengths add up to the whole period.
pub proof fn lemma_period_sum(levels: Seq<u32>, steps: Seq<PwmStep>)
    requires
        levels_valid(levels),
        encodes(levels, steps),
    ensures
        steps.len() == STEP_COUNT,
        total_length(steps, STEP_COUNT as int) == PERIOD,
{
    let order = choose|order: Seq<usize>|
        #[trigger] is_rank_order(levels, order) && is_table_for(levels, order, steps);
    lemma_prefix_length(levels, order, steps, LED_COUNT as int);
    assert(steps[LED_COUNT as int].length == step_len(levels, order, LED_COUNT as int));
}

/// No step is shorter than nothing or longer than the period, and every mask uses
/// only the eight LED bits.
pub proof fn lemma_lengths_in_range(levels: Seq<u32>, steps: Seq<PwmStep>)
    requires
        levels_valid(levels),
        encodes(levels, steps),
    ensures
        steps.len() == STEP_COUNT,
        forall|i: int|
            0 <= i < STEP_COUNT ==> 0 <= #[trigger] steps[i].length <= PERIOD && steps[i].data < 256,
{
    let order = choose|order: Seq<usize>|
        #[trigger] is_rank_order(levels, order) && is_table_for(levels, order, steps);
    assert forall|i: int| 0 <= i < STEP_COUNT implies 0 <= #[trigger] steps[i].length <= PERIOD
        && steps[i].data < 256 by {
        assert(steps[i].length == step_len(levels, order, i));
        if i < LED_COUNT {
            assert(order[i] < LED_COUNT);
            if i > 0 {
                assert(order[i - 1] < LED_COUNT);
                assert(precedes(levels, order[i - 1] as int, order[i] as int));
            }
        } else {
            assert(order[LED_COUNT - 1] < LED_COUNT);
        }
    }
}

proof fn lemma_count_clear(d: u32, e: u32, c: u32, n: nat)
    requires
        c < LED_COUNT,
        n <= LED_COUNT,
        led_on(d, c),
        forall|k: u32| k < n ==> (#[trigger] led_on(e, k) <==> (led_on(d, k) && k != c)),
    ensures
        c < n ==> active_count(e, n) + 1 == active_count(d, n),
        c >= n ==> active_count(e, n) == active_count(d, n),
    decreases n,
{
    if n > 0 {
        lemma_count_clear(d, e, c, (n - 1) as nat);
        assert(led_on(e, (n - 1) as u32) <==> (led_on(d, (n - 1) as u32) && (n - 1) as u32 != c));
    }
}

proof fn lemma_count_all(d: u32, n: nat)
    requires
        n <= LED_COUNT,
        forall|k: u32| k < n ==> #[trigger] led_on(d, k),
    ensures
        active_count(d, n) == n,
    decreases n,
{
    if n > 0 {
        assert(led_on(d, (n - 1) as u32));
        lemma_count_all(d, (n - 1) as nat);
    }
}

proof fn lemma_count_none(n: nat)
    requires
        n <= LED_COUNT,
    ensures
        active_count(0, n) == 0,
    decreases n,
{
    if n > 0 {
        lemma_empty_mask((n - 1) as u32);
        lemma_count_none((n - 1) as nat);
    }
}

proof fn lemma_count_at(levels: Seq<u32>, order: Seq<usize>, steps: Seq<PwmStep>, i: int)
    requires
        is_rank_order(levels, order),
        is_table_for(levels, order, steps),
        0 <= i < LED_COUNT,
    ensures
        active_count(steps[i].data, 8) + i == 8,
    decreases i,
{
    if i == 0 {
        assert forall|k: u32| k < 8 implies #[trigger] led_on(steps[0].data, k) by {
            assert(still_on(order, 0, k));
        }
        lemma_count_all(steps[0].data, 8);
    } else {
        lemma_count_at(levels, order, steps, i - 1);
        let c = order[i - 1] as u32;
        assert(still_on(order, i - 1, c)) by {
            assert forall|j: int| 0 <= j < i - 1 implies order[j] != c as usize by {
                assert(precedes(levels, order[j] as int, order[i - 1] as int));
            }
        }
        assert forall|k: u32| k < 8 implies (#[trigger] led_on(steps[i].data, k) <==> (led_on(
            steps[i - 1].data,
            k,
        ) && k != c)) by {
            assert(still_on(order, i, k) <==> (still_on(order, i - 1, k) && order[i - 1] != k as usize));
        }
        lemma_count_clear(steps[i - 1].data, steps[i].data, c, 8);
    }
}

/// Each step has one LED fewer on than the step before it, starting from all eight;
/// the final step has none on. So the number of LEDs on never grows along the table.
pub proof fn lemma_masks_shrink(levels: Seq<u32>, steps: Seq<PwmStep>)
    requires
        levels_valid(levels),
        encodes(levels, steps),
    ensures
        forall|i: int| 0 <= i < LED_COUNT ==> active_count(#[trigger] steps[i].data, 8) == 8 - i,
        active_count(steps[LED_COUNT as int].data, 8) == 0,
        forall|i: int, j: int|
            0 <= i <= j < STEP_COUNT ==> active_count(#[trigger] steps[j].data, 8) <= active_count(
                #[trigger] steps[i].data,
                8,
            ),
{
    let order = choose|order: Seq<usize>|
        #[trigger] is_rank_order(levels, order) && is_table_for(levels, order, steps);
    assert forall|i: int| 0 <= i < LED_COUNT implies active_count(#[trigger] steps[i].data, 8) == 8
        - i by {
        lemma_count_at(levels, order, steps, i);
    }
    lemma_count_none(8);
}

/// The LED that goes off after step `i` is the one at rank `i`.
proof fn lemma_turns_off_rank(levels: Seq<u32>, order: Seq<usize>, steps: Seq<PwmStep>, i: int, k: u32)
    requires
        is_rank_order(levels, order),
        is_table_for(levels, order, steps),
        0 <= i < LED_COUNT,
        k < LED_COUNT,
        turns_off(steps, i, k),
    ensures
        order[i] == k as usize,
{
    assert(still_on(order, i, k));
    if i + 1 < LED_COUNT {
        assert(!still_on(order, i + 1, k));
    } else {
        lemma_order_covers(levels, order);
        assert(!still_on(order, LED_COUNT as int, k));
    }
}

/// The LEDs go off in non-decreasing order of their levels.
pub proof fn lemma_steps_sorted(levels: Seq<u32>, steps: Seq<PwmStep>)
    requires
        levels_valid(levels),
        encodes(levels, steps),
    ensures
        forall|i: int, j: int, k: u32, l: u32|
            0 <= i < j < LED_COUNT && k < LED_COUNT && l < LED_COUNT && #[trigger] turns_off(
                steps,
                i,
                k,
            ) && #[trigger] turns_off(steps, j, l) ==> levels[k as int] <= levels[l as int],
{
    let order = choose|order: Seq<usize>|
        #[trigger] is_rank_order(levels, order) && is_table_for(levels, order, steps);
    assert forall|i: int, j: int, k: u32, l: u32|
        0 <= i < j < LED_COUNT && k < LED_COUNT && l < LED_COUNT && #[trigger] turns_off(
            steps,
            i,
            k,
        ) && #[trigger] turns_off(steps, j, l) implies levels[k as int] <= levels[l as int] by {
        lemma_turns_off_rank(levels, order, steps, i, k);
        lemma_turns_off_rank(levels, order, steps, j, l);
        assert(precedes(levels, order[i] as int, order[j] as int));
    }
}

proof fn lemma_on_time_prefix(
    levels: Seq<u32>,
    order: Seq<usize>,
    steps: Seq<PwmStep>,
    k: u32,
    r: int,
    n: int,
)
    requires
        is_rank_order(levels, order),
        is_table_for(levels, order, steps),
        0 <= r < LED_COUNT,
        order[r] == k as usize,
        0 <= n <= STEP_COUNT,
    ensures
        n <= r + 1 ==> on_time(steps, k, n) == total_length(steps, n),
        n > r + 1 ==> on_time(steps, k, n) == total_length(steps, r + 1),
    decreases n,
{
    if n > 0 {
        lemma_on_time_prefix(levels, order, steps, k, r, n - 1);
        let i = n - 1;
        if i <= r {
            assert(still_on(order, i, k)) by {
                assert forall|j: int| 0 <= j < i implies order[j] != k as usize by {
                    assert(precedes(levels, order[j] as int, order[r] as int));
                }
            }
        } else if i < LED_COUNT {
            assert(!still_on(order, i, k));
        } else {
            lemma_empty_mask(k);
        }
    }
}

/// Over one refresh period each LED is on for exactly as long as its level.
pub proof fn lemma_on_time(levels: Seq<u32>, steps: Seq<PwmStep>, k: u32)
    requires
        levels_valid(levels),
        encodes(levels, steps),
        k < LED_COUNT,
    ensures
        on_time(steps, k, STEP_COUNT as int) == levels[k as int],
{
    let order = choose|order: Seq<usize>|
        #[trigger] is_rank_order(levels, order) && is_table_for(levels, order, steps);
    lemma_order_covers(levels, order);
    assert(!still_on(order, LED_COUNT as int, k));
    let r = choose|r: int| 0 <= r < LED_COUNT && order[r] == k as usize;
    lemma_on_time_prefix(levels, order, steps, k, r, STEP_COUNT as int);
    lemma_prefix_length(levels, order, steps, r + 1);
}

} // verus!
