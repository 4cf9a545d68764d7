use oled_mirror::scheduler::{interval_nanos, sleep_nanos, Scheduler};

#[test]
fn interval_at_24_hz() {
    assert_eq!(interval_nanos(24), 41_666_666);
    assert_eq!(interval_nanos(1), 1_000_000_000);
    assert_eq!(interval_nanos(1_000_000_000), 1);
}

#[test]
fn sleep_tops_up_to_the_interval() {
    let interval = interval_nanos(24);
    assert_eq!(sleep_nanos(0, interval), interval);
    assert_eq!(sleep_nanos(900_000, interval), interval - 900_000);
    assert_eq!(sleep_nanos(interval, interval), 0);
}

#[test]
fn overrun_sleeps_nothing() {
    let interval = interval_nanos(24);
    assert_eq!(sleep_nanos(50_000_000, interval), 0);
    assert_eq!(sleep_nanos(u64::MAX, interval), 0);
}

#[test]
fn pacing_at_24_hz_has_no_drift() {
    // A body under 1 ms paces to exactly one interval per iteration:
    // over 100 iterations the start times advance by 100 intervals.
    let interval = interval_nanos(24);
    let body_nanos: u64 = 900_000;
    let mut start: u64 = 0;
    for _ in 0..100 {
        let sleep = sleep_nanos(body_nanos, interval);
        let next = start + body_nanos + sleep;
        assert_eq!(next - start, interval);
        start = next;
    }
    assert_eq!(start, 100 * interval);
}

#[test]
fn frame_applies_to_the_bitmap() {
    let mut sched = Scheduler::new(8, 8, 24);
    assert!(sched.is_running());
    sched.apply_frame(Some(vec![0b0000_0001]));
    assert_eq!(sched.buffer.data[0], 0b1000_0000);
}

#[test]
fn quit_stops_the_loop() {
    let mut sched = Scheduler::new(8, 8, 24);
    let sleep = sched.pace(true, 0);
    assert!(!sched.is_running());
    assert_eq!(sleep, interval_nanos(24));
}

#[test]
fn error_stops_the_loop() {
    let mut sched = Scheduler::new(8, 8, 24);
    sched.halt_on_error();
    assert!(!sched.is_running());
}

#[test]
fn silent_server_renders_previous_frame() {
    // A server that never answers: every read comes back as a closed
    // stream, the block is empty, and the loop keeps rendering the
    // previous (here: blank) bitmap instead of crashing.
    let mut sched = Scheduler::new(8, 8, 24);
    for _ in 0..3 {
        sched.apply_frame(None);
        let sleep = sched.pace(false, 900_000);
        assert!(sched.is_running());
        assert_eq!(sleep, interval_nanos(24) - 900_000);
        assert!(sched.buffer.data.iter().all(|&b| b == 0));
    }
    // Once a frame did arrive, a later silent read keeps it.
    sched.apply_frame(Some(vec![0xFF]));
    let shown = sched.buffer.data.clone();
    sched.apply_frame(None);
    sched.pace(false, 900_000);
    assert!(sched.is_running());
    assert_eq!(sched.buffer.data, shown);
}
