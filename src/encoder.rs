use vstd::prelude::*;

use crate::bits::{lemma_clear_bit, lemma_full_mask};

verus! {

/// Number of LEDs driven through the shift register.
pub const LED_COUNT: usize = 8;

/// Number of steps in one refresh period: one per LED and a final all-off step.
pub const STEP_COUNT: usize = 9;

/// Length of one refresh period, in abstract time units.
pub const PERIOD: u32 = 255;

/// One slot of the refresh period: how long it lasts and which LEDs are on.
#[derive(Clone, Copy, Debug, PartialEq, Eq, Structural)]
pub struct PwmStep {
    pub length: u32,
    pub data: u32,
}

/// Whether LED `k` is on in the output mask `d`.
pub open spec fn led_on(d: u32, k: u32) -> bool {
    (d >> k) & 1 == 1
}

/// All levels lie in `0..=255`.
pub open spec fn levels_valid(levels: Seq<u32>) -> bool {
    levels.len() == LED_COUNT && forall|k: int| 0 <= k < LED_COUNT ==> levels[k] <= PERIOD
}

/// LED `a` is cleared before LED `b`: it has a lower level, or the same level and a lower index.
pub open spec fn precedes(levels: Seq<u32>, a: int, b: int) -> bool {
    levels[a] < levels[b] || (levels[a] == levels[b] && a < b)
}

/// `order` lists LED indices ascending by level, ties broken by index; being strictly
/// ascending over eight slots, it holds each index exactly once.
pub open spec fn is_rank_order(levels: Seq<u32>, order: Seq<usize>) -> bool {
    &&& order.len() == LED_COUNT
    &&& forall|i: int| 0 <= i < LED_COUNT ==> order[i] < LED_COUNT
    &&& forall|i: int, j: int|
        0 <= i < j < LED_COUNT ==> #[trigger] precedes(levels, order[i] as int, order[j] as int)
}

/// The level of the LED at rank `i` of `order`; rank `-1` stands for level 0.
pub open spec fn rank_level(levels: Seq<u32>, order: Seq<usize>, i: int) -> int {
    if i < 0 {
        0
    } else {
        levels[order[i] as int] as int
    }
}

/// Length of step `i`: the level rise from the previous rank, and what remains of
/// the period for the final step.
pub open spec fn step_len(levels: Seq<u32>, order: Seq<usize>, i: int) -> int {
    if i < LED_COUNT {
        rank_level(levels, order, i) - rank_level(levels, order, i - 1)
    } else {
        PERIOD - rank_level(levels, order, LED_COUNT - 1)
    }
}

/// LED `k` is still on during step `i`: it is not among the first `i` LEDs of `order`.
pub open spec fn still_on(order: Seq<usize>, i: int, k: u32) -> bool {
    forall|j: int| 0 <= j < i ==> order[j] != k as usize
}

/// `steps` is the table that `order` gives for `levels`.
pub open spec fn is_table_for(levels: Seq<u32>, order: Seq<usize>, steps: Seq<PwmStep>) -> bool {
    &&& steps.len() == STEP_COUNT
    &&& forall|i: int| 0 <= i < STEP_COUNT ==> steps[i].length == step_len(levels, order, i)
    &&& forall|i: int| 0 <= i < LED_COUNT ==> steps[i].data < 256
    &&& forall|i: int, k: u32|
        0 <= i < LED_COUNT && k < LED_COUNT ==> (led_on(steps[i].data, k) <==> #[trigger] still_on(
            order,
            i,
            k,
        ))
    &&& steps[LED_COUNT as int].data == 0
}

/// `steps` is the step table of `levels`.
pub open spec fn encodes(levels: Seq<u32>, steps: Seq<PwmStep>) -> bool {
    exists|order: Seq<usize>| #[trigger]
        is_rank_order(levels, order) && is_table_for(levels, order, steps)
}

/// Whether LED `a` is cleared before LED `b`.
pub fn comes_before(levels: &[u32; 8], a: usize, b: usize) -> (r: bool)
    requires
        a < LED_COUNT,
        b < LED_COUNT,
    ensures
        r == precedes(levels@, a as int, b as int),
{
    levels[a] < levels[b] || (levels[a] == levels[b] && a < b)
}

/// The LED indices ascending by level, ties broken by index (a stable insertion sort).
pub fn rank_order(levels: &[u32; 8]) -> (order: [usize; 8])
    ensures
        is_rank_order(levels@, order@),
{
    let mut order: [usize; 8] = [0, 1, 2, 3, 4, 5, 6, 7];
    let mut i: usize = 1;
    while i < LED_COUNT
        invariant
            1 <= i <= LED_COUNT,
            forall|p: int| 0 <= p < i ==> order[p] < i,
            forall|p: int| i <= p < LED_COUNT ==> order[p] == p,
            forall|p: int, q: int|
                0 <= p < q < i ==> #[trigger] precedes(levels@, order[p] as int, order[q] as int),
        decreases LED_COUNT - i,
    {
        let x = order[i];
        let ghost before = order@;
        let mut j: usize = i;
        while j > 0 && comes_before(levels, x, order[j - 1])
            invariant
                x == i,
                1 <= i < LED_COUNT,
                before.len() == LED_COUNT,
                j <= i,
                forall|p: int| 0 <= p < j ==> order[p] == before[p],
                forall|p: int| 0 <= p < j ==> order[p] < i,
                forall|p: int| j < p <= i ==> order[p] == before[p - 1],
                forall|p: int| i < p < LED_COUNT ==> order[p] == before[p],
                forall|p: int| 0 <= p < i ==> before[p] < i,
                forall|p: int| i <= p < LED_COUNT ==> before[p] == p,
                forall|p: int, q: int|
                    0 <= p < q < i ==> #[trigger] precedes(
                        levels@,
                        before[p] as int,
                        before[q] as int,
                    ),
                forall|p: int| j < p <= i ==> precedes(levels@, x as int, #[trigger] order[p] as int),
            decreases j,
        {
            order[j] = order[j - 1];
            j = j - 1;
        }
        let ghost stop = j;
        assert(stop > 0 ==> precedes(levels@, before[stop - 1] as int, x as int)) by {
            if stop > 0 {
                assert(order[stop - 1] == before[stop - 1]);
                assert(before[stop - 1] < i);
            }
        }
        order[j] = x;
        assert(order[stop as int] == x);
        assert(forall|p: int| 0 <= p < stop ==> order[p] == before[p]);
        assert(forall|p: int| stop < p <= i ==> order[p] == before[p - 1]);
        assert(forall|p: int| stop < p <= i ==> precedes(levels@, x as int, #[trigger] order[p] as int));
        assert forall|p: int| i < p < LED_COUNT implies order[p] == p by {
            assert(order[p] == before[p]);
            assert(before[p] == p);
        }
        assert forall|p: int, q: int|
            0 <= p < q < i + 1 implies #[trigger] precedes(
            levels@,
            order[p] as int,
            order[q] as int,
        ) by {
            if q < stop {
                assert(order[p] == before[p] && order[q] == before[q]);
            } else if q == stop {
                assert(order[p] == before[p]);
                if p < stop - 1 {
                    assert(precedes(levels@, before[p] as int, before[stop - 1] as int));
                }
            } else if p == stop {
                assert(precedes(levels@, x as int, order[q] as int));
            } else if p < stop {
                assert(order[p] == before[p] && order[q] == before[q - 1]);
                assert(precedes(levels@, before[p] as int, before[q - 1] as int));
            } else {
                assert(order[p] == before[p - 1] && order[q] == before[q - 1]);
                assert(precedes(levels@, before[p - 1] as int, before[q - 1] as int));
            }
        }
        i = i + 1;
    }
    order
}

/// The levels of the eight LEDs together with the step table that plays them back.
pub struct PwmData {
    pub pwm_levels: [u32; 8],
    pub pwm_steps: [PwmStep; 9],
}

impl PwmData {
    /// Levels in range, and the step table is the one those levels give.
    pub open spec fn wf(&self) -> bool {
        levels_valid(self.pwm_levels@) && encodes(self.pwm_levels@, self.pwm_steps@)
    }

    /// All LEDs at level 0, with the matching (all-off) step table.
    pub fn new() -> (r: Self)
        ensures
            r.wf(),
            forall|k: int| 0 <= k < LED_COUNT ==> r.pwm_levels[k] == 0,
    {
        let null_step = PwmStep { length: PERIOD, data: 0 };
        let mut r = PwmData { pwm_levels: [0; 8], pwm_steps: [null_step; 9] };
        r.reflect();
        r
    }

    /// Rebuilds the step table from the current levels.
    pub fn reflect(&mut self)
        requires
            levels_valid(old(self).pwm_levels@),
        ensures
            final(self).pwm_levels == old(self).pwm_levels,
            final(self).wf(),
    {
        let order = rank_order(&self.pwm_levels);
        let ghost levels = self.pwm_levels@;
        let mut data: u32 = 255;
        let mut prev_level: u32 = 0;
        let mut i: usize = 0;
        assert forall|k: u32| k < LED_COUNT implies (led_on(data, k) <==> #[trigger] still_on(
            order@,
            0,
            k,
        )) by {
            lemma_full_mask(k);
        }
        while i < LED_COUNT
            invariant
                self.pwm_levels == old(self).pwm_levels,
                levels == self.pwm_levels@,
                levels_valid(levels),
                is_rank_order(levels, order@),
                i <= LED_COUNT,
                prev_level == rank_level(levels, order@, i - 1),
                data < 256,
                forall|k: u32| k < LED_COUNT ==> (led_on(data, k) <==> #[trigger] still_on(order@, i as int, k)),
                forall|p: int| 0 <= p < i ==> #[trigger] self.pwm_steps[p].length == step_len(levels, order@, p),
                forall|p: int| 0 <= p < i ==> #[trigger] self.pwm_steps[p].data < 256,
                forall|p: int, k: u32|
                    0 <= p < i && k < LED_COUNT ==> (led_on(self.pwm_steps[p].data, k) <==> #[trigger] still_on(
                        order@,
                        p,
                        k,
                    )),
            decreases LED_COUNT - i,
        {
            let cur_index = order[i];
            let cur_level = self.pwm_levels[cur_index];
            if i > 0 {
                assert(precedes(levels, order[i - 1] as int, order[i as int] as int));
            }
            self.pwm_steps[i] = PwmStep { length: cur_level - prev_level, data };
            let ghost old_data = data;
            data = data & !(1u32 << (cur_index as u32));
            assert forall|k: u32| k < LED_COUNT implies (led_on(data, k) <==> #[trigger] still_on(
                order@,
                i + 1,
                k,
            )) by {
                lemma_clear_bit(old_data, cur_index as u32, k);
                assert(still_on(order@, i as int, k) ==> (still_on(order@, i + 1, k) <==> order[i as int] != k as usize));
                assert(still_on(order@, i + 1, k) ==> still_on(order@, i as int, k));
            }
            proof {
                lemma_clear_bit(old_data, cur_index as u32, 0);
            }
            prev_level = cur_level;
            i = i + 1;
        }
        self.pwm_steps[8] = PwmStep { length: PERIOD - prev_level, data: 0 };
        assert(is_rank_order(levels, order@) && is_table_for(levels, order@, self.pwm_steps@));
    }

    /// A copy of the whole step table.
    pub fn snapshot(&self) -> (r: [PwmStep; 9])
        ensures
            r == self.pwm_steps,
    {
        self.pwm_steps
    }
}

} // verus!
