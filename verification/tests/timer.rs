use obby_client::timer::{
    Deadline, Now, ReconnectBackoff, Timers, DEFAULT_BASE_MS, DEFAULT_CAP_MS, DEFAULT_MAX_ATTEMPTS,
};

fn now(monotonic_ms: u64) -> Now {
    Now {
        monotonic_ms,
        unix_ms: 0,
    }
}

#[test]
fn a_deadline_fires_exactly_at_its_instant_and_not_before() {
    let mut timers = Timers::new();
    timers.set(Deadline::PingKeepalive, 1_000);
    assert!(timers.expire(now(999)).is_empty());
    assert_eq!(timers.expire(now(1_000)), vec![Deadline::PingKeepalive]);
}

#[test]
fn several_deadlines_expire_in_one_call_in_order() {
    let mut timers = Timers::new();
    timers.set(Deadline::DeadLink, 300);
    timers.set(Deadline::PingKeepalive, 100);
    timers.set(Deadline::Reconnect, 200);
    let due = timers.expire(now(1_000));
    assert_eq!(
        due,
        vec![
            Deadline::PingKeepalive,
            Deadline::Reconnect,
            Deadline::DeadLink
        ]
    );
}

#[test]
fn expiring_drains_a_deadline_so_it_does_not_fire_twice() {
    let mut timers = Timers::new();
    timers.set(Deadline::DeadLink, 100);
    assert_eq!(timers.expire(now(200)), vec![Deadline::DeadLink]);
    assert!(timers.expire(now(200)).is_empty());
}

#[test]
fn next_returns_the_earliest_pending_deadline() {
    let mut timers = Timers::new();
    assert_eq!(timers.next(), None);
    timers.set(Deadline::DeadLink, 500);
    timers.set(Deadline::PingKeepalive, 200);
    assert_eq!(timers.next(), Some(200));
}

#[test]
fn clearing_a_deadline_disarms_it() {
    let mut timers = Timers::new();
    timers.set(Deadline::PingKeepalive, 100);
    timers.clear(&Deadline::PingKeepalive);
    assert!(timers.expire(now(1_000)).is_empty());
    assert_eq!(timers.next(), None);
}

#[test]
fn per_key_typing_deadlines_are_independent() {
    let mut timers = Timers::new();
    timers.set(Deadline::Typing("#a".to_string(), "alice".to_string()), 100);
    timers.set(Deadline::Typing("#a".to_string(), "bob".to_string()), 200);
    assert_eq!(
        timers.expire(now(100)),
        vec![Deadline::Typing("#a".to_string(), "alice".to_string())]
    );
    assert_eq!(timers.next(), Some(200));
}

#[test]
fn reconnect_backoff_doubles_then_caps_then_gives_up() {
    let mut backoff = ReconnectBackoff::new(1_000, 5_000, 4);
    assert_eq!(backoff.next_delay_ms(), Some(1_000));
    assert_eq!(backoff.next_delay_ms(), Some(2_000));
    assert_eq!(backoff.next_delay_ms(), Some(4_000));
    assert_eq!(
        backoff.next_delay_ms(),
        Some(5_000),
        "8000 would exceed the 5000 cap"
    );
    assert_eq!(
        backoff.next_delay_ms(),
        None,
        "the fifth attempt exceeds max_attempts"
    );
}

#[test]
fn reconnect_backoff_resets_back_to_the_base_delay() {
    let mut backoff = ReconnectBackoff::new(1_000, 5_000, 4);
    assert_eq!(backoff.next_delay_ms(), Some(1_000));
    assert_eq!(backoff.next_delay_ms(), Some(2_000));
    backoff.reset();
    assert_eq!(
        backoff.next_delay_ms(),
        Some(1_000),
        "a connection that succeeded means the next failure starts over"
    );
}

#[test]
fn default_reconnect_backoff_matches_the_reference_client() {
    let mut backoff = ReconnectBackoff::default();
    assert_eq!(backoff.next_delay_ms(), Some(2_000));
    assert_eq!(backoff.next_delay_ms(), Some(4_000));
}

#[test]
fn arming_again_moves_the_deadline() {
    let mut timers = Timers::new();
    timers.set(Deadline::PingKeepalive, 100);
    timers.set(Deadline::PingKeepalive, 300);
    assert!(timers.expire(now(200)).is_empty());
    assert_eq!(timers.next(), Some(300));
}

#[test]
fn the_delay_never_passes_the_cap() {
    let mut backoff = ReconnectBackoff::new(DEFAULT_BASE_MS, DEFAULT_CAP_MS, DEFAULT_MAX_ATTEMPTS);
    let mut last = 0;
    for _ in 0..DEFAULT_MAX_ATTEMPTS {
        let delay = backoff.next_delay_ms().expect("not given up yet");
        assert!(last <= delay && delay <= DEFAULT_CAP_MS);
        last = delay;
    }
    assert_eq!(last, DEFAULT_CAP_MS);
    assert_eq!(backoff.next_delay_ms(), None);
}
