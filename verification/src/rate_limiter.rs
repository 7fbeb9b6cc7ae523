//! The ceiling on the bandwidth of compaction and flush: calibrated to the disk, and
//! lowered while foreground reads are slow.

use vstd::prelude::*;

verus! {

/// What the I/O scheduler measured.
#[derive(Clone, Copy, PartialEq, Eq, Structural, Debug)]
pub struct LatencyReport {
    /// 99th percentile of the high-priority queue, in microseconds.
    pub hp_p99_us: u64,
    /// 99th percentile of the background queue, in microseconds.
    pub bk_p99_us: u64,
    /// 99th percentile of an idle high-priority queue, in microseconds.
    pub hp_idle_baseline_us: u64,
    /// Number of windows in a row in which the high-priority queue was slow.
    pub consecutive_exceeded: u32,
    /// Whether background work has to slow down.
    pub should_throttle: bool,
}

/// The state of the limiter.
#[verifier::ext_equal]
pub ghost struct LimiterState {
    /// The calibrated rate, in bytes per second.
    pub max_rate: u64,
    /// The rate in force, in bytes per second.
    pub ceiling: u64,
    /// Whether the rate in force is a lowered one.
    pub throttled: bool,
}

impl LimiterState {
    /// A limiter that is not throttled runs at the calibrated rate, and one that is
    /// throttled at no more.
    pub open spec fn wf(self) -> bool {
        &&& self.ceiling <= self.max_rate
        &&& !self.throttled ==> self.ceiling == self.max_rate
    }

    /// The state at a calibrated rate.
    pub open spec fn at_rate(rate: u64) -> LimiterState {
        LimiterState { max_rate: rate, ceiling: rate, throttled: false }
    }

    /// The state after a report that asks to slow down by `reduction`, or not to.
    pub open spec fn adjusted(self, slow_down: bool, reduction: u64) -> LimiterState {
        if slow_down && !self.throttled {
            LimiterState {
                ceiling: if reduction > self.max_rate {
                    0
                } else {
                    (self.max_rate - reduction) as u64
                },
                throttled: true,
                ..self
            }
        } else if !slow_down && self.throttled {
            LimiterState { ceiling: self.max_rate, throttled: false, ..self }
        } else {
            self
        }
    }
}

/// The ceiling is lowered once, however many reports ask for it.
pub proof fn lemma_throttled_once(state: LimiterState, first: u64, second: u64)
    ensures
        state.adjusted(true, first).adjusted(true, second) == state.adjusted(true, first),
{
}

/// A report of normal latency undoes the lowering.
pub proof fn lemma_restore_undoes(state: LimiterState, lowered: u64, ignored: u64)
    requires
        state.wf(),
        !state.throttled,
    ensures
        state.adjusted(true, lowered).adjusted(false, ignored) == state,
{
}

/// Slowing down takes the reduction off the calibrated rate, down to nothing, and leaves the
/// calibrated rate as it is.
pub proof fn lemma_lowered_by_reduction(state: LimiterState, reduction: u64)
    requires
        state.wf(),
        !state.throttled,
    ensures
        ({
            let lowered = state.adjusted(true, reduction);
            &&& lowered.throttled
            &&& lowered.max_rate == state.max_rate
            &&& lowered.wf()
            &&& reduction <= state.max_rate ==> lowered.ceiling + reduction == state.ceiling
            &&& reduction >= state.max_rate ==> lowered.ceiling == 0
        }),
{
}

/// The bandwidth ceiling.
#[derive(Debug)]
pub struct RateLimiter {
    max_rate: u64,
    current_ceiling: u64,
    is_throttled: bool,
}

impl View for RateLimiter {
    type V = LimiterState;

    closed spec fn view(&self) -> LimiterState {
        LimiterState {
            max_rate: self.max_rate,
            ceiling: self.current_ceiling,
            throttled: self.is_throttled,
        }
    }
}

impl RateLimiter {
    /// A limiter at a rate in bytes per second.
    pub fn new(initial_rate: u64) -> (limiter: Self)
        ensures
            limiter@.wf(),
            limiter@ == LimiterState::at_rate(initial_rate),
    {
        RateLimiter { max_rate: initial_rate, current_ceiling: initial_rate, is_throttled: false }
    }

    /// Takes over a rate that was calibrated to the disk.
    pub fn calibrate(&mut self, rate: u64)
        ensures
            final(self)@.wf(),
            final(self)@ == LimiterState::at_rate(rate),
    {
        self.max_rate = rate;
        self.current_ceiling = rate;
        self.is_throttled = false;
    }

    /// Lowers the ceiling by `reduction` if the report asks to slow down and it is not
    /// lowered yet, and restores it if the report does not. Returns the new ceiling if
    /// it changed hands.
    pub fn adjust_from_latency(&mut self, report: &LatencyReport, reduction: u64) -> (changed:
        Option<u64>)
        requires
            old(self)@.wf(),
        ensures
            final(self)@.wf(),
            final(self)@ == old(self)@.adjusted(report.should_throttle, reduction),
            changed == (if report.should_throttle != old(self)@.throttled {
                Some(final(self)@.ceiling)
            } else {
                None
            }),
    {
        if report.should_throttle {
            if self.is_throttled {
                return None;
            }
            self.current_ceiling = self.max_rate.saturating_sub(reduction);
            self.is_throttled = true;
        } else {
            if !self.is_throttled {
                return None;
            }
            self.current_ceiling = self.max_rate;
            self.is_throttled = false;
        }
        Some(self.current_ceiling)
    }

    /// The ceiling in force, in bytes per second.
    pub fn current_ceiling(&self) -> (ceiling: u64)
        ensures
            ceiling == self@.ceiling,
    {
        self.current_ceiling
    }

    /// The calibrated rate, in bytes per second.
    pub fn max_rate(&self) -> (rate: u64)
        ensures
            rate == self@.max_rate,
    {
        self.max_rate
    }

    /// Whether the ceiling is lowered.
    pub fn is_throttled(&self) -> (throttled: bool)
        ensures
            throttled == self@.throttled,
    {
        self.is_throttled
    }
}

} // verus!
