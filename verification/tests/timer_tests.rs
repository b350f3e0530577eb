use sansa::timer::{ProgramTimer, Timer, MS_NS, SECOND_NS};

#[test]
fn timer_new_starts_at_zero() {
    let t = Timer::new(250);
    assert_eq!(t.total, 250);
    assert_eq!(t.now, 0);
    assert!(!t.is_out());
}

#[test]
fn timer_empty_has_no_duration() {
    let t = Timer::empty();
    assert_eq!(t.total, 0);
    assert_eq!(t.now, 0);
    assert!(!t.is_out());
}

#[test]
fn timer_is_out_is_strict() {
    let mut t = Timer::new(10);
    t.update(10);
    assert_eq!(t.now, 10);
    assert!(!t.is_out());
    t.update(1);
    assert_eq!(t.now, 11);
    assert!(t.is_out());
}

#[test]
fn timer_update_accumulates_without_clamp() {
    let mut t = Timer::new(5);
    t.update(3);
    t.update(4);
    assert_eq!(t.now, 7);
    assert_eq!(t.total, 5);
    assert!(t.is_out());
}

#[test]
fn empty_timer_runs_out_on_any_positive_delta() {
    let mut t = Timer::empty();
    t.update(1);
    assert!(t.is_out());
}

#[test]
fn program_timer_records_delta_and_now() {
    let mut p = ProgramTimer::new(5 * SECOND_NS);
    assert_eq!(p.delta, 0);
    assert_eq!(p.fps(), 0);
    p.update(5 * SECOND_NS + 16 * MS_NS);
    assert_eq!(p.delta, 16);
    assert_eq!(p.now(), 5016);
    assert_eq!(p.fps(), 1);
}

#[test]
fn program_timer_fps_counts_last_second_only() {
    let mut p = ProgramTimer::new(10 * SECOND_NS);
    let mut t = 10 * SECOND_NS;
    for _ in 0..5 {
        t += 100 * MS_NS;
        p.update(t);
    }
    assert_eq!(p.fps(), 5);
    // one more frame a full second later: everything strictly older
    // than one second is dropped; the frame exactly one second old stays
    t += SECOND_NS;
    p.update(t);
    assert_eq!(p.fps(), 2);
    // and a long stall empties the window down to the new frame
    t += 10 * SECOND_NS;
    p.update(t);
    assert_eq!(p.fps(), 1);
}

#[test]
fn program_timer_pause_fills_the_frame_slice() {
    let p = ProgramTimer::new(SECOND_NS).frame(100);
    // a frame slice is 10ms; 4ms in, 6ms remain
    assert_eq!(p.pause_ns(SECOND_NS + 4 * MS_NS), 6 * MS_NS);
    // past the slice, no pause
    assert_eq!(p.pause_ns(SECOND_NS + 20 * MS_NS), 0);
}
