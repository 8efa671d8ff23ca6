use modbridge::api::{not_found_message, RegisterReply, RegisterState};
use modbridge::client::{number_registers, NextStep, PollEvent};

#[test]
fn starts_empty() {
    let s = RegisterState::default();
    assert!(s.registers.is_empty());
    assert_eq!(s.last_updated, None);
    assert_eq!(s.error, None);
}

#[test]
fn serves_what_was_polled() {
    let mut s = RegisterState::default();
    let values = number_registers(40001, &[2341, 1987, 3102]);
    s.record_values(&values, "2026-05-18T14:22:01Z".to_string());
    assert_eq!(s.lookup(40001), Some(2341));
    assert_eq!(s.lookup(40003), Some(3102));
    assert_eq!(s.lookup(40004), None);
    assert_eq!(s.last_updated.as_deref(), Some("2026-05-18T14:22:01Z"));
    assert_eq!(s.error, None);
}

#[test]
fn a_later_pair_overrides_an_earlier_one() {
    let mut s = RegisterState::default();
    s.record_values(&[(40001, 1), (40001, 2)], "t".to_string());
    assert_eq!(s.lookup(40001), Some(2));
    assert_eq!(s.registers.len(), 1);
}

#[test]
fn a_new_poll_replaces_old_values() {
    let mut s = RegisterState::default();
    s.record_values(&[(40001, 1), (40002, 2)], "t1".to_string());
    s.record_values(&[(40002, 5)], "t2".to_string());
    assert_eq!(s.lookup(40001), None);
    assert_eq!(s.lookup(40002), Some(5));
}

#[test]
fn errors_keep_the_last_values() {
    let mut s = RegisterState::default();
    s.record_values(&[(40001, 1)], "t1".to_string());
    s.record_poll_error("boom".to_string());
    assert_eq!(s.lookup(40001), Some(1));
    assert_eq!(s.error.as_deref(), Some("boom"));
    assert_eq!(s.last_updated.as_deref(), Some("t1"));
    s.record_connect_error("refused");
    assert_eq!(s.error.as_deref(), Some("connection failed: refused"));
    s.record_values(&[(40001, 3)], "t2".to_string());
    assert_eq!(s.error, None);
}

#[test]
fn not_found_message_names_the_register() {
    assert_eq!(not_found_message(40015), "register 40015 not found");
    assert_eq!(not_found_message(0), "register 0 not found");
}

#[test]
fn replies_to_single_register_requests() {
    let mut s = RegisterState::default();
    s.record_values(&[(40015, 77)], "t".to_string());
    match s.register_reply(40015) {
        RegisterReply::Found { address, value, last_updated } => {
            assert_eq!(address, 40015);
            assert_eq!(value, 77);
            assert_eq!(last_updated.as_deref(), Some("t"));
        }
        RegisterReply::NotFound { .. } => panic!("register should be found"),
    }
    match s.register_reply(40016) {
        RegisterReply::NotFound { message } => assert_eq!(message, "register 40016 not found"),
        RegisterReply::Found { .. } => panic!("register should be missing"),
    }
}

#[test]
fn serve_steps() {
    let mut s = RegisterState::default();
    assert_eq!(s.serve_step(PollEvent::Connected), NextStep::Poll);
    assert_eq!(
        s.serve_step(PollEvent::Polled(vec![(40001, 9)])),
        NextStep::PollAfterInterval
    );
    assert_eq!(s.lookup(40001), Some(9));
    assert!(s.last_updated.is_some());
    assert_eq!(s.serve_step(PollEvent::PollFailed("x".to_string())), NextStep::Reconnect);
    assert_eq!(s.error.as_deref(), Some("x"));
    assert_eq!(s.lookup(40001), Some(9));
    assert_eq!(
        s.serve_step(PollEvent::ConnectFailed("no route".to_string())),
        NextStep::ReconnectAfterInterval
    );
    assert_eq!(s.error.as_deref(), Some("connection failed: no route"));
}

#[test]
fn poll_time_is_an_rfc3339_stamp() {
    let mut s = RegisterState::default();
    s.record_values_now(&[(40001, 1)]);
    let t = s.last_updated.clone().unwrap();
    assert!(!t.is_empty());
    assert!(t.chars().all(|c| c.is_ascii_digit() || "-+:T.".contains(c)));
}
