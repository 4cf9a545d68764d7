//! Frame scheduler: the fixed-frequency loop's state and pacing
//! decisions. Each tick the outside loop reads the framebuffer,
//! renders, polls the quit signal, and measures the time the body
//! took; the scheduler decodes the block into its bitmap, advances the
//! loop state, and answers how long to sleep so that iteration starts
//! advance by one interval. Missed ticks are never caught up: a late
//! body sleeps zero and the boundary restarts at "now".

use vstd::prelude::*;
use crate::decoder::{decodes_to, DisplayBuffer};

verus! {

pub const NANOS_PER_SECOND: u64 = 1_000_000_000;

/// Nanoseconds of one frame at a refresh rate of `hz`.
pub open spec fn interval_nanos_spec(hz: u64) -> int {
    NANOS_PER_SECOND as int / hz as int
}

/// Computes the frame interval for a refresh rate.
pub fn interval_nanos(hz: u64) -> (r: u64)
    requires
        hz > 0,
    ensures
        r == interval_nanos_spec(hz),
        r <= NANOS_PER_SECOND,
{
    NANOS_PER_SECOND / hz
}

/// How long to suspend after a body that took `elapsed` nanoseconds of
/// an `interval`-nanosecond frame: the remainder, or nothing when the
/// body overran.
pub open spec fn sleep_nanos_spec(elapsed: u64, interval: u64) -> int {
    if elapsed < interval {
        interval - elapsed
    } else {
        0
    }
}

/// Computes the remaining sleep of one frame.
pub fn sleep_nanos(elapsed: u64, interval: u64) -> (r: u64)
    ensures
        r == sleep_nanos_spec(elapsed, interval),
{
    if elapsed < interval {
        interval - elapsed
    } else {
        0
    }
}

/// Law: pacing is exact and drift-free. A body that finishes within
/// the interval is topped up to exactly one interval, so successive
/// iteration starts are one interval apart; a body that overruns
/// sleeps nothing, and no missed time is ever made up.
pub proof fn lemma_pacing(elapsed: u64, interval: u64)
    ensures
        elapsed <= interval ==> elapsed + sleep_nanos_spec(elapsed, interval) == interval,
        elapsed >= interval ==> sleep_nanos_spec(elapsed, interval) == 0,
{
}

/// The loop's state: it runs until the display sink asks to quit or a
/// protocol error proves unrecoverable, and `Stopped` is terminal.
#[derive(Clone, Copy, PartialEq, Eq, Structural, Debug)]
pub enum LoopState {
    Running,
    Stopped,
}

/// The fixed-frequency mirror loop: its state, the bitmap it owns and
/// mutates in place every tick, and the frame interval.
pub struct Scheduler {
    pub state: LoopState,
    pub buffer: DisplayBuffer,
    pub interval_nanos: u64,
}

impl Scheduler {
    /// Well-formed: the bitmap is.
    pub open spec fn wf(self) -> bool {
        self.buffer.wf()
    }

    /// A running scheduler over an all-clear bitmap at `hz` frames per
    /// second.
    pub fn new(width: usize, height: usize, hz: u64) -> (r: Scheduler)
        requires
            width % 8 == 0,
            height % 8 == 0,
            width * height <= usize::MAX,
            hz > 0,
        ensures
            r.wf(),
            r.state == LoopState::Running,
            r.buffer.width == width,
            r.buffer.height == height,
            r.interval_nanos == interval_nanos_spec(hz),
            forall|i: int| 0 <= i < r.buffer.data@.len() ==> r.buffer.data@[i] == 0,
    {
        Scheduler {
            state: LoopState::Running,
            buffer: DisplayBuffer::new(width, height),
            interval_nanos: interval_nanos(hz),
        }
    }

    /// Whether the loop should take another tick.
    pub fn is_running(&self) -> (r: bool)
        ensures
            r == (self.state == LoopState::Running),
    {
        match self.state {
            LoopState::Running => true,
            LoopState::Stopped => false,
        }
    }

    /// First half of a tick: decodes the raw block read this frame
    /// into the bitmap. `None`, a closed stream, keeps the previous
    /// frame on screen — the deliberate stale-frame leniency.
    pub fn apply_frame(&mut self, block: Option<Vec<u8>>)
        requires
            old(self).wf(),
        ensures
            final(self).wf(),
            final(self).state == old(self).state,
            final(self).interval_nanos == old(self).interval_nanos,
            final(self).buffer.width == old(self).buffer.width,
            final(self).buffer.height == old(self).buffer.height,
            match block {
                Some(b) => decodes_to(
                    b@,
                    old(self).buffer.width as int,
                    old(self).buffer.height as int,
                    old(self).buffer.data@,
                    final(self).buffer.data@,
                ),
                None => final(self).buffer.data@ == old(self).buffer.data@,
            },
    {
        match block {
            Some(b) => self.buffer.decode_into(&b),
            None => {},
        }
    }

    /// Second half of a tick, after the frame was rendered and the
    /// sink polled: stops on a quit request, and answers how long to
    /// sleep given how long the body took.
    pub fn pace(&mut self, quit: bool, elapsed_nanos: u64) -> (sleep: u64)
        ensures
            final(self).buffer == old(self).buffer,
            final(self).interval_nanos == old(self).interval_nanos,
            final(self).state == if quit {
                LoopState::Stopped
            } else {
                old(self).state
            },
            sleep == sleep_nanos_spec(elapsed_nanos, old(self).interval_nanos),
    {
        if quit {
            self.state = LoopState::Stopped;
        }
        sleep_nanos(elapsed_nanos, self.interval_nanos)
    }

    /// An unrecoverable protocol error ends the loop.
    pub fn halt_on_error(&mut self)
        ensures
            final(self).state == LoopState::Stopped,
            final(self).buffer == old(self).buffer,
            final(self).interval_nanos == old(self).interval_nanos,
    {
        self.state = LoopState::Stopped;
    }
}

} // verus!
