use chip8_core::schedule::{Scheduler, TIMER_PERIOD_NANOS};

#[test]
fn nothing_due_before_the_deadlines() {
    let mut s = Scheduler::new(1_000, 2_000);
    assert_eq!(s.poll(1_500), (false, false));
    assert_eq!(s.last_cpu, 1_000);
    assert_eq!(s.last_timer, 1_000);
}

#[test]
fn cpu_step_due_at_its_deadline() {
    let mut s = Scheduler::new(1_000, 2_000);
    assert_eq!(s.poll(3_000), (true, false));
    assert_eq!(s.last_cpu, 3_000);
    assert_eq!(s.poll(3_000), (false, false));
}

#[test]
fn late_polls_do_not_drift_the_schedule() {
    // Polling far past the deadline advances it by exactly one period
    // from the old deadline, not from the current time, so the next
    // deadline comes sooner and the average rate is kept.
    let mut s = Scheduler::new(0, 2_000);
    assert_eq!(s.poll(9_000), (true, false));
    assert_eq!(s.last_cpu, 2_000);
    assert_eq!(s.poll(9_000), (true, false));
    assert_eq!(s.last_cpu, 4_000);
}

#[test]
fn timer_runs_at_its_own_rate() {
    let mut s = Scheduler::new(0, 1_000);
    let t = TIMER_PERIOD_NANOS;
    let due = s.poll(t);
    assert_eq!(due, (true, true));
    assert_eq!(s.last_timer, t);
    assert_eq!(s.poll(t + 500), (true, false));
}
