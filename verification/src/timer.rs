//! Clocks for the animation core: a per-leaf countdown (`Timer`) and the
//! per-program frame clock (`ProgramTimer`).

use std::collections::VecDeque;
use vstd::prelude::*;

verus! {

/// Milliseconds.
pub type Ms = u64;

/// Nanoseconds.
pub type Ns = u64;

/// Nanoseconds in one second.
pub const SECOND_NS: u64 = 1_000_000_000;

/// Nanoseconds in one millisecond.
pub const MS_NS: u64 = 1_000_000;

/// Countdown/progress helper owned by a leaf animation: a fixed total
/// duration and the time elapsed so far.  `elapsed` may exceed `total`;
/// that is how a leaf observes that it has run out.
#[derive(Clone, Copy, Debug)]
pub struct Timer {
    pub total: Ms,
    pub now: Ms,
}

impl Timer {
    /// A zero-elapsed timer with the given total duration.
    pub fn new(time: Ms) -> (t: Timer)
        ensures
            t.total == time,
            t.now == 0,
    {
        Timer { total: time, now: 0 }
    }

    /// A timer with no duration at all, for leaves with no countdown:
    /// any strictly positive delta runs it out.
    pub fn empty() -> (t: Timer)
        ensures
            t.total == 0,
            t.now == 0,
    {
        Timer::new(0)
    }

    /// Whether the timer has run past its total.  Strict: a timer driven
    /// exactly to `total` is still in progress.
    pub fn is_out(&self) -> (b: bool)
        ensures
            b == (self.now > self.total),
    {
        self.now > self.total
    }

    /// Advance the elapsed time by `delta`.  No saturation and no clamp:
    /// `now` may exceed `total`.
    pub fn update(&mut self, delta: Ms)
        requires
            old(self).now + delta <= u64::MAX,
        ensures
            final(self).now == old(self).now + delta,
            final(self).total == old(self).total,
    {
        self.now = self.now + delta;
    }
}

/// The timestamps of `s` with those older than `cutoff` dropped from
/// the front.
pub open spec fn prune(s: Seq<Ns>, cutoff: Ns) -> Seq<Ns>
    decreases s.len(),
{
    if s.len() > 0 && s[0] < cutoff {
        prune(s.drop_first(), cutoff)
    } else {
        s
    }
}

/// The moment one second before `t`, saturating at zero.
pub open spec fn second_ago(t: Ns) -> Ns {
    if t >= SECOND_NS {
        (t - SECOND_NS) as Ns
    } else {
        0
    }
}

/// The program's frame clock: the last frame's timestamp and delta, the
/// timestamps of the frames of the last second, and the frame-rate cap.
/// A collaborator reads the wall clock and sleeps; this type only does
/// the bookkeeping.
pub struct ProgramTimer {
    pub updates: VecDeque<Ns>,
    pub now: Ns,
    pub delta: Ms,
    pub frame_limit: u64,
}

impl ProgramTimer {
    /// A frame clock started at the given wall-clock reading, capped at
    /// sixty frames per second.
    pub fn new(now_ns: Ns) -> (t: ProgramTimer)
        ensures
            t.updates@ == Seq::<Ns>::empty(),
            t.now == now_ns,
            t.delta == 0,
            t.frame_limit == 60,
    {
        ProgramTimer { updates: VecDeque::with_capacity(128), now: now_ns, delta: 0, frame_limit: 60 }
    }

    /// The same clock with another frame-rate cap.
    pub fn frame(self, limit: u64) -> (t: ProgramTimer)
        requires
            limit >= 1,
        ensures
            t == (ProgramTimer { frame_limit: limit, ..self }),
    {
        ProgramTimer { frame_limit: limit, ..self }
    }

    /// How long to pause before the next frame so as not to run ahead
    /// of the frame-rate cap: the remainder of this frame's time slice,
    /// in nanoseconds.
    pub fn pause_ns(&self, now_ns: Ns) -> (r: Ns)
        requires
            self.frame_limit >= 1,
            self.now <= now_ns,
        ensures
            r == if SECOND_NS as int / self.frame_limit as int > now_ns - self.now {
                SECOND_NS as int / self.frame_limit as int - (now_ns - self.now)
            } else {
                0
            },
    {
        let per_frame_ns = SECOND_NS / self.frame_limit;
        let delta = now_ns - self.now;
        if per_frame_ns > delta {
            per_frame_ns - delta
        } else {
            0
        }
    }

    /// Record a new frame at the given wall-clock reading: set the
    /// delta in milliseconds since the previous frame, drop the
    /// timestamps older than one second, and remember this one.
    pub fn update(&mut self, now_ns: Ns)
        requires
            old(self).now <= now_ns,
        ensures
            final(self).delta == (now_ns - old(self).now) as u64 / MS_NS,
            final(self).now == now_ns,
            final(self).updates@ == prune(old(self).updates@, second_ago(now_ns)).push(now_ns),
            final(self).frame_limit == old(self).frame_limit,
    {
        let cutoff: Ns = if now_ns >= SECOND_NS {
            now_ns - SECOND_NS
        } else {
            0
        };
        self.delta = (now_ns - self.now) / MS_NS;
        self.now = now_ns;
        while self.updates.len() > 0 && self.updates[0] < cutoff
            invariant
                prune(self.updates@, cutoff) == prune(old(self).updates@, cutoff),
                self.now == now_ns,
                self.delta == (now_ns - old(self).now) as u64 / MS_NS,
                self.frame_limit == old(self).frame_limit,
            decreases self.updates@.len(),
        {
            self.updates.pop_front();
        }
        self.updates.push_back(now_ns);
    }

    /// How many frames were recorded in the last second.
    pub fn fps(&self) -> (n: usize)
        ensures
            n == self.updates@.len(),
    {
        self.updates.len()
    }

    /// The last recorded timestamp, in milliseconds.
    pub fn now(&self) -> (r: Ms)
        ensures
            r == self.now as int / MS_NS as int,
    {
        self.now / MS_NS
    }
}

} // verus!
