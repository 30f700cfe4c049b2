//! Deadline arithmetic for the dual-rate timing loop: one schedule for CPU
//! cycles and one for the 60 Hz timers. A deadline that has passed advances
//! by exactly one period from the previous deadline — never from the
//! current time — so neither schedule drifts however late the poll comes.

use vstd::prelude::*;

verus! {

/// Nanoseconds between 60 Hz timer ticks.
pub const TIMER_PERIOD_NANOS: u64 = 16_000_000;

pub struct Scheduler {
    /// The last CPU-cycle deadline that was honoured, in nanoseconds.
    pub last_cpu: u64,
    /// The last timer deadline that was honoured, in nanoseconds.
    pub last_timer: u64,
    /// Nanoseconds between CPU cycles.
    pub cpu_period: u64,
    /// Nanoseconds between timer ticks.
    pub timer_period: u64,
}

impl Scheduler {
    /// Starts both schedules at the given time.
    pub fn new(now: u64, cpu_period: u64) -> (s: Scheduler)
        ensures
            s.last_cpu == now,
            s.last_timer == now,
            s.cpu_period == cpu_period,
            s.timer_period == TIMER_PERIOD_NANOS,
    {
        Scheduler { last_cpu: now, last_timer: now, cpu_period, timer_period: TIMER_PERIOD_NANOS }
    }

    /// Decides what this loop iteration owes: one CPU step if the CPU
    /// deadline has passed, one timer tick if the timer deadline has. An
    /// honoured deadline advances by its period from the old deadline, not
    /// from `now`, so lateness never accumulates.
    pub fn poll(&mut self, now: u64) -> (due: (bool, bool))
        requires
            old(self).last_cpu + old(self).cpu_period <= u64::MAX,
            old(self).last_timer + old(self).timer_period <= u64::MAX,
        ensures
            due.0 == (now >= old(self).last_cpu + old(self).cpu_period),
            due.1 == (now >= old(self).last_timer + old(self).timer_period),
            final(self).last_cpu == if due.0 {
                (old(self).last_cpu + old(self).cpu_period) as u64
            } else {
                old(self).last_cpu
            },
            final(self).last_timer == if due.1 {
                (old(self).last_timer + old(self).timer_period) as u64
            } else {
                old(self).last_timer
            },
            final(self).cpu_period == old(self).cpu_period,
            final(self).timer_period == old(self).timer_period,
    {
        let next_cpu = self.last_cpu + self.cpu_period;
        let next_timer = self.last_timer + self.timer_period;
        let run_cpu = now >= next_cpu;
        let run_timer = now >= next_timer;
        if run_cpu {
            self.last_cpu = next_cpu;
        }
        if run_timer {
            self.last_timer = next_timer;
        }
        (run_cpu, run_timer)
    }
}

} // verus!
