use vstd::prelude::*;

verus! {

/// What the noise gate's envelope does in one frame.
#[derive(Clone, Copy, Debug, PartialEq, Eq, Structural)]
pub enum GatePhase {
    /// The level is above the threshold: the envelope rises towards 1.
    Open,
    /// The level fell below the threshold a short while ago: the envelope
    /// keeps its value.
    Hold,
    /// The hold time has run out: the envelope falls towards 0.
    Release,
}

/// Phase and remaining hold frames after one frame, from the remaining hold
/// frames before it, whether the level is above the threshold, and the hold
/// time in frames.
pub open spec fn gate_step(remaining: int, above: bool, hold_frames: int) -> (GatePhase, int) {
    if above {
        (GatePhase::Open, hold_frames)
    } else if remaining > 0 {
        (GatePhase::Hold, remaining - 1)
    } else {
        (GatePhase::Release, remaining)
    }
}

/// Remaining hold frames after `k` frames below the threshold.
pub open spec fn quiet_remaining(remaining: int, k: nat) -> int
    decreases k,
{
    if k == 0 {
        remaining
    } else {
        gate_step(quiet_remaining(remaining, (k - 1) as nat), false, 0).1
    }
}

/// The hold time keeps a level hovering near the threshold from opening and
/// closing in quick succession: once the level has been
/// above the threshold, the next `hold_frames` frames below it hold the
/// envelope, and every later frame below it releases the envelope.
pub proof fn lemma_hold_then_release(hold_frames: int, k: nat)
    requires
        hold_frames >= 0,
    ensures
        quiet_remaining(hold_frames, k) == if k <= hold_frames { hold_frames - k } else { 0 },
        gate_step(quiet_remaining(hold_frames, k), false, 0).0 == if k < hold_frames {
            GatePhase::Hold
        } else {
            GatePhase::Release
        },
    decreases k,
{
    if k > 0 {
        lemma_hold_then_release(hold_frames, (k - 1) as nat);
    }
}

/// A frame above the threshold opens the envelope and restarts the hold at
/// exactly `hold_frames`, whatever hold was left; from then on, the first
/// `hold_frames` frames below the threshold hold and every later one
/// releases. Below the threshold the remaining hold only counts down by one
/// frame at a time while it is positive, and stays put otherwise.
pub proof fn lemma_open_restarts_hold(remaining: int, hold_frames: int, k: nat)
    requires
        hold_frames >= 0,
    ensures
        gate_step(remaining, true, hold_frames).0 == GatePhase::Open,
        gate_step(remaining, true, hold_frames).1 == hold_frames,
        gate_step(quiet_remaining(gate_step(remaining, true, hold_frames).1, k), false, 0).0
            == if k < hold_frames {
            GatePhase::Hold
        } else {
            GatePhase::Release
        },
        remaining > 0 ==> gate_step(remaining, false, hold_frames) == (GatePhase::Hold, remaining - 1),
        remaining <= 0 ==> gate_step(remaining, false, hold_frames) == (GatePhase::Release, remaining),
{
    lemma_hold_then_release(hold_frames, k);
}

/// The noise gate's hold counter.
pub struct HoldCounter {
    remaining: i32,
}

impl View for HoldCounter {
    type V = int;

    /// Frames of hold left.
    closed spec fn view(&self) -> int {
        self.remaining as int
    }
}

impl HoldCounter {
    /// A counter with no hold left.
    pub fn new() -> (r: Self)
        ensures
            r@ == 0,
    {
        HoldCounter { remaining: 0 }
    }

    /// Frames of hold left.
    pub fn remaining(&self) -> (r: i32)
        ensures
            r == self@,
    {
        self.remaining
    }

    /// One frame: above the threshold the phase is `Open` and the hold restarts
    /// at `hold_frames`; below it the phase is `Hold` while hold frames are left,
    /// counting one down, and `Release` otherwise.
    pub fn step(&mut self, above: bool, hold_frames: i32) -> (r: GatePhase)
        ensures
            (r, final(self)@) == gate_step(old(self)@, above, hold_frames as int),
            above ==> r == GatePhase::Open && final(self)@ == hold_frames,
            !above && old(self)@ > 0 ==> r == GatePhase::Hold && final(self)@ == old(self)@ - 1,
            !above && old(self)@ <= 0 ==> r == GatePhase::Release && final(self)@ == old(self)@,
    {
        if above {
            self.remaining = hold_frames;
            GatePhase::Open
        } else if self.remaining > 0 {
            self.remaining = self.remaining - 1;
            GatePhase::Hold
        } else {
            GatePhase::Release
        }
    }
}

} // verus!
