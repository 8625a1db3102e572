use vstd::prelude::*;

use crate::bits::lemma_top_byte;
use crate::encoder::{encodes, levels_valid, PwmData, PwmStep, PERIOD, STEP_COUNT};
use crate::laws::lemma_lengths_in_range;

verus! {

/// Duration of one abstract time unit of the refresh period, in microseconds.
pub const MICROS_PER_UNIT: u64 = 100;

/// What the playback loop does for one step: send `word` to the shift register, then
/// wait `delay_micros`.
#[derive(Clone, Copy, Debug, PartialEq, Eq, Structural)]
pub struct PlayerAction {
    pub word: u32,
    pub delay_micros: u64,
}

/// The word that carries mask `d` to the shift register, in its top byte.
pub open spec fn word_of(d: u32) -> int {
    d * 0x100_0000
}

/// `steps` is the whole step table of some valid levels.
pub open spec fn is_whole_table(steps: Seq<PwmStep>) -> bool {
    exists|levels: Seq<u32>| levels_valid(levels) && #[trigger] encodes(levels, steps)
}

/// The action that plays `step`.
pub open spec fn action_for(step: PwmStep) -> PlayerAction {
    PlayerAction {
        word: word_of(step.data) as u32,
        delay_micros: (step.length * MICROS_PER_UNIT) as u64,
    }
}

/// Plays a step table back one step at a time. A new table is copied from the shared
/// data only at the start of a cycle, so each cycle plays one whole table.
pub struct Player {
    pub snapshot: [PwmStep; 9],
    pub next: usize,
}

/// Whatever the writer has done to the shared data, as long as it keeps it well formed,
/// a copy of its step table is the whole table of its current levels, never a mix of two.
pub proof fn lemma_snapshot_whole(shared: PwmData)
    requires
        shared.wf(),
    ensures
        encodes(shared.pwm_levels@, shared.pwm_steps@),
        is_whole_table(shared.pwm_steps@),
{
}

impl Player {
    /// Between cycles any table will do, since a new one is taken first; within a cycle
    /// the table being played is a whole one.
    pub open spec fn wf(&self) -> bool {
        self.next < STEP_COUNT && (self.next == 0 || is_whole_table(self.snapshot@))
    }

    /// A player about to start its first cycle.
    pub fn new() -> (r: Self)
        ensures
            r.wf(),
            r.next == 0,
    {
        let null_step = PwmStep { length: PERIOD, data: 0 };
        Player { snapshot: [null_step; 9], next: 0 }
    }

    /// The next action of the playback loop. At the start of a cycle the whole step
    /// table of `shared` is copied first; within a cycle `shared` is not read.
    pub fn step(&mut self, shared: &PwmData) -> (a: PlayerAction)
        requires
            old(self).wf(),
            shared.wf(),
        ensures
            final(self).wf(),
            old(self).next == 0 ==> final(self).snapshot == shared.pwm_steps,
            old(self).next != 0 ==> final(self).snapshot == old(self).snapshot,
            final(self).next == (old(self).next + 1) % (STEP_COUNT as int),
            a == action_for(final(self).snapshot[old(self).next as int]),
    {
        if self.next == 0 {
            self.snapshot = shared.snapshot();
        }
        let i = self.next;
        let step = self.snapshot[i];
        proof {
            let levels = choose|levels: Seq<u32>|
                levels_valid(levels) && #[trigger] encodes(levels, self.snapshot@);
            lemma_lengths_in_range(levels, self.snapshot@);
            lemma_top_byte(step.data);
        }
        let a = PlayerAction {
            word: step.data << 24u32,
            delay_micros: step.length as u64 * MICROS_PER_UNIT,
        };
        self.next = (i + 1) % STEP_COUNT;
        a
    }
}

} // verus!
