use stakker_tui::{arm_force_timer, consume_input, Features, Session, TermOut};

fn out() -> TermOut {
    TermOut::new(Features { colour_256: false })
}

#[test]
fn new_session_is_active_with_reset_cleanup() {
    let s = Session::new();
    assert!(!s.paused());
    assert!(!s.output_disabled());
    assert!(!s.check_enabled());
    assert!(s.bell_allowed());
    assert_eq!(s.cleanup(), b"\x1bc");
}

#[test]
fn flush_hands_out_committed_bytes() {
    let mut s = Session::new();
    let mut t = out();
    t.out("ab");
    t.flush();
    t.out("cd");
    let f = s.flush(&mut t);
    assert!(!f.cleanup_changed);
    assert_eq!(f.write, Some(b"ab".to_vec()));
    t.flush();
    assert_eq!(t.data_to_flush(), b"cd");
}

#[test]
fn flush_takes_over_saved_cleanup() {
    let mut s = Session::new();
    let mut t = out();
    t.out("bye");
    t.save_cleanup();
    let f = s.flush(&mut t);
    assert!(f.cleanup_changed);
    assert_eq!(f.write, Some(vec![]));
    assert_eq!(s.cleanup(), b"bye");
    assert!(t.take_cleanup().is_none());
}

#[test]
fn pause_sends_cleanup_and_drops_output() {
    let mut s = Session::new();
    let mut t = out();
    t.out("pending");
    let f = s.pause(&mut t).expect("was active");
    assert_eq!(f.write, Some(b"\x1bc".to_vec()));
    assert!(s.paused());
    assert!(s.pause(&mut t).is_none());
    t.out("more");
    t.flush();
    let f = s.flush(&mut t);
    assert_eq!(f.write, None);
    t.flush();
    assert_eq!(t.data_to_flush(), b"");
    assert!(s.bell_allowed());
}

#[test]
fn resume_discards_and_reactivates() {
    let mut s = Session::new();
    let mut t = out();
    assert!(!s.resume(&mut t));
    s.pause(&mut t);
    t.out("stale");
    assert!(s.resume(&mut t));
    assert!(!s.paused());
    t.flush();
    assert_eq!(t.data_to_flush(), b"");
}

#[test]
fn failed_output_stays_off() {
    let mut s = Session::new();
    let mut t = out();
    s.output_failed();
    assert!(s.output_disabled());
    assert!(!s.bell_allowed());
    t.out("x");
    t.flush();
    let f = s.flush(&mut t);
    assert_eq!(f.write, None);
    assert_eq!(t.data_to_flush(), b"x");
    let f = s.pause(&mut t).expect("was active");
    assert_eq!(f.write, None);
}

#[test]
fn check_flag_toggles() {
    let mut s = Session::new();
    s.check(true);
    assert!(s.check_enabled());
    s.check(false);
    assert!(!s.check_enabled());
}

#[test]
fn paused_flush_drops_even_with_output_off() {
    let mut s = Session::new();
    let mut t = out();
    s.output_failed();
    s.pause(&mut t);
    t.out("late");
    t.flush();
    let f = s.flush(&mut t);
    assert_eq!(f.write, None);
    t.flush();
    assert_eq!(t.data_to_flush(), b"");
}

#[test]
fn force_timer_only_for_pending_unforced_input() {
    assert!(arm_force_timer(3, false));
    assert!(!arm_force_timer(3, true));
    assert!(!arm_force_timer(0, false));
}

#[test]
fn input_step_decisions() {
    let mut s = Session::new();
    let st = s.input_step(0, 5, Some(2));
    assert_eq!((st.next, st.forward, st.arm_check, st.stop), (2, true, false, false));
    s.check(true);
    let st = s.input_step(2, 5, Some(3));
    assert_eq!((st.next, st.forward, st.arm_check, st.stop), (5, true, true, false));
    let st = s.input_step(2, 5, None);
    assert_eq!((st.next, st.forward, st.arm_check, st.stop), (2, false, false, true));
    let st = s.input_step(5, 5, Some(1));
    assert!(st.stop && st.next == 5);
    let st = s.input_step(2, 5, Some(9));
    assert!(st.stop && st.next == 2 && !st.forward);
    let st = s.input_step(2, 5, Some(0));
    assert!(st.stop && st.next == 2);
}

#[test]
fn consume_input_drops_decoded_prefix() {
    let mut buf = vec![1u8, 2, 3, 4];
    consume_input(&mut buf, 3);
    assert_eq!(buf, vec![4]);
    consume_input(&mut buf, 0);
    assert_eq!(buf, vec![4]);
}
