use webserver::admission::{reset_due, Admission, ClientId, WINDOW_SECS};

fn client(last: u8, port: u16) -> ClientId {
    ClientId { v6: false, addr: 0x7f00_0000 + last as u128, port, flow: 0, scope: 0 }
}

#[test]
fn burst_over_the_threshold_is_refused() {
    let mut state = Admission::new();
    let c = client(1, 40000);
    for n in 1..=250u64 {
        let d = state.observe(c, 25, true);
        assert!(d.admitted, "request {} must be admitted", n);
        assert_eq!(d.reason, None);
        assert_eq!(state.requests(c), n);
    }
    assert!(!state.is_blacklisted(c));
    let d = state.observe(c, 25, true);
    assert!(!d.admitted);
    assert_eq!(d.reason, Some("Blacklisted"));
    assert_eq!(state.requests(c), 251);
    assert!(state.is_blacklisted(c));
}

#[test]
fn ban_outlives_the_window() {
    let mut state = Admission::new();
    let c = client(2, 1);
    let other = client(3, 1);
    for _ in 0..11 {
        state.observe(c, 1, true);
    }
    assert!(state.is_blacklisted(c));
    state.reset_window();
    assert_eq!(state.requests(c), 0);
    assert!(state.is_blacklisted(c));
    let d = state.observe(c, 1, true);
    assert!(!d.admitted);
    assert_eq!(state.requests(c), 1);
    assert!(state.observe(other, 1, true).admitted);
    assert!(!state.is_blacklisted(other));
}

#[test]
fn tenth_request_passes_eleventh_does_not() {
    let mut state = Admission::new();
    let c = client(4, 9);
    for _ in 0..10 {
        assert!(state.observe(c, 1, true).admitted);
    }
    assert!(!state.observe(c, 1, true).admitted);
}

#[test]
fn disabled_admits_and_counts_nothing() {
    let mut state = Admission::new();
    let c = client(5, 9);
    for _ in 0..1000 {
        let d = state.observe(c, 0, false);
        assert!(d.admitted);
        assert_eq!(d.reason, None);
    }
    assert_eq!(state.requests(c), 0);
    assert!(!state.is_blacklisted(c));
}

#[test]
fn clients_are_counted_apart() {
    let mut state = Admission::new();
    let a = client(6, 1);
    let b = client(6, 2);
    state.observe(a, 25, true);
    state.observe(a, 25, true);
    state.observe(b, 25, true);
    assert_eq!(state.requests(a), 2);
    assert_eq!(state.requests(b), 1);
    assert_eq!(state.requests(client(7, 1)), 0);
}

#[test]
fn zero_threshold_refuses_the_first_request() {
    let mut state = Admission::new();
    let c = client(8, 1);
    assert!(!state.observe(c, 0, true).admitted);
    assert!(!state.observe(c, -3, true).admitted);
}

#[test]
fn window_begins_every_sixty_seconds() {
    assert_eq!(WINDOW_SECS, 60);
    assert!(reset_due(0));
    assert!(!reset_due(1));
    assert!(!reset_due(59));
    assert!(reset_due(60));
    assert!(reset_due(120));
    assert!(!reset_due(u64::MAX));
}
