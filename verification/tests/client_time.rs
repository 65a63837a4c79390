use obby_client::client::Client;
use obby_client::command::Command;
use obby_client::config::Config;
use obby_client::event::Event;
use obby_client::label::DEFAULT_TIMEOUT_MS;
use obby_client::timer::{Now, DEAD_LINK_MS, DEFAULT_BASE_MS, PING_KEEPALIVE_MS};
use obby_client::wire::Line;

fn at(ms: u64) -> Now {
    Now {
        monotonic_ms: ms,
        unix_ms: 1_700_000_000_000 + ms,
    }
}

fn sent(client: &mut Client) -> String {
    let mut out = String::new();
    while let Some(bytes) = client.poll_transmit() {
        out.push_str(&String::from_utf8_lossy(&bytes));
    }
    out
}

fn events(client: &mut Client) -> Vec<Event> {
    let mut out = Vec::new();
    while let Some(event) = client.poll_event() {
        out.push(event);
    }
    out
}

#[test]
fn a_quiet_link_gets_a_keepalive_ping() {
    let mut client = Client::new(Config::new("me"));
    client.connected();
    sent(&mut client);

    client.tick(at(PING_KEEPALIVE_MS - 1));
    assert_eq!(sent(&mut client), "", "nothing is due yet");

    client.tick(at(PING_KEEPALIVE_MS));
    assert_eq!(sent(&mut client), "PING me\r\n");
}

#[test]
fn a_ping_with_no_answer_declares_the_link_dead() {
    let mut client = Client::new(Config::new("me"));
    client.connected();
    client.tick(at(PING_KEEPALIVE_MS));
    events(&mut client);

    client.tick(at(PING_KEEPALIVE_MS + DEAD_LINK_MS - 1));
    assert!(events(&mut client).is_empty());

    client.tick(at(PING_KEEPALIVE_MS + DEAD_LINK_MS));
    assert_eq!(events(&mut client), [Event::LinkDead]);
}

#[test]
fn any_traffic_at_all_proves_the_link_is_alive() {
    let mut client = Client::new(Config::new("me"));
    client.connected();
    client.tick(at(PING_KEEPALIVE_MS));
    sent(&mut client);

    client.handle_bytes(b":s PONG me :me\r\n");
    client.tick(at(PING_KEEPALIVE_MS + DEAD_LINK_MS));
    assert!(
        !events(&mut client).contains(&Event::LinkDead),
        "a pong clears the dead-link deadline"
    );
}

#[test]
fn the_next_deadline_is_reported_so_a_host_can_sleep_exactly() {
    let mut client = Client::new(Config::new("me"));
    assert_eq!(
        client.poll_timeout(),
        None,
        "nothing is pending before connecting"
    );
    client.connected();
    assert_eq!(client.poll_timeout(), Some(PING_KEEPALIVE_MS));
}

#[test]
fn a_dropped_link_keeps_the_model_and_backs_off() {
    let mut client = Client::new(Config::new("me"));
    client.handle_bytes(b":s 001 me :Welcome\r\n");
    client.handle_bytes(b":s 005 me CHANTYPES=# :are supported\r\n");
    client.handle_bytes(b":me!u@h JOIN #obby\r\n");
    client.handle_bytes(b"@msgid=x :bob!u@h PRIVMSG #obby :hello\r\n");
    events(&mut client);

    client.disconnected();
    let folded = client.isupport().fold("#obby");
    assert!(
        client.model().channel(&folded).is_some(),
        "losing the link must not lose the scrollback"
    );

    let first = events(&mut client);
    assert!(matches!(first.as_slice(), [Event::Reconnect { .. }]));

    client.connected();
    client.disconnected();
    assert!(
        matches!(events(&mut client).as_slice(), [Event::Reconnect { after_ms }] if *after_ms == DEFAULT_BASE_MS),
        "a successful connection resets the backoff"
    );
}

#[test]
fn backing_off_doubles_while_the_link_stays_down() {
    let mut client = Client::new(Config::new("me"));
    let mut delays = Vec::new();
    for _ in 0..3 {
        client.disconnected();
        for event in events(&mut client) {
            if let Event::Reconnect { after_ms } = event {
                delays.push(after_ms);
            }
        }
    }
    assert!(
        delays.windows(2).all(|pair| pair[1] > pair[0]),
        "each attempt waits longer than the last, got {delays:?}"
    );
}

#[test]
fn a_command_is_labelled_only_when_the_server_can_correlate_it() {
    let mut client = Client::new(Config::new("me"));
    assert_eq!(
        client.send_labeled(&Line::new("WHO", vec!["#obby".to_string()])),
        None,
        "labelling a server that never agreed to it only confuses it"
    );
    assert_eq!(sent(&mut client), "WHO #obby\r\n");

    client.connected();
    sent(&mut client);
    client.handle_bytes(b":s CAP * LS :labeled-response\r\n");
    client.handle_bytes(b":s CAP * ACK :labeled-response\r\n");
    sent(&mut client);

    let label = client
        .send_labeled(&Line::new("WHO", vec!["#obby".to_string()]))
        .expect("the capability is in force");
    assert_eq!(
        sent(&mut client),
        format!("@label={label} WHO #obby\r\n")
    );
}

#[test]
fn a_labelled_command_that_is_never_answered_times_out() {
    let mut client = Client::new(Config::new("me"));
    client.connected();
    client.handle_bytes(b":s CAP * LS :labeled-response\r\n");
    client.handle_bytes(b":s CAP * ACK :labeled-response\r\n");
    client.send_labeled(&Line::new("WHO", vec!["#obby".to_string()]));
    events(&mut client);

    client.tick(at(DEFAULT_TIMEOUT_MS));
    assert_eq!(
        events(&mut client),
        [Event::CommandTimedOut {
            command: "WHO".to_string()
        }]
    );
}

#[test]
fn an_answered_command_does_not_time_out() {
    let mut client = Client::new(Config::new("me"));
    client.connected();
    client.handle_bytes(b":s CAP * LS :labeled-response\r\n");
    client.handle_bytes(b":s CAP * ACK :labeled-response\r\n");
    let label = client
        .send_labeled(&Line::new("WHO", vec!["#obby".to_string()]))
        .expect("labelled");
    client.handle_bytes(format!("@label={label} :s 315 me #obby :End\r\n").as_bytes());
    events(&mut client);

    client.tick(at(DEFAULT_TIMEOUT_MS));
    assert!(
        !events(&mut client)
            .iter()
            .any(|e| matches!(e, Event::CommandTimedOut { .. }))
    );
}

#[test]
fn after_the_last_attempt_it_gives_up() {
    let mut client = Client::new(Config::new("me"));
    for _ in 0..100 {
        client.disconnected();
    }
    assert!(!events(&mut client).contains(&Event::ReconnectGaveUp));
    client.disconnected();
    assert_eq!(events(&mut client), [Event::ReconnectGaveUp]);
}

#[test]
fn the_time_to_reconnect_is_told() {
    let mut client = Client::new(Config::new("me"));
    client.disconnected();
    assert_eq!(client.poll_timeout(), Some(DEFAULT_BASE_MS));
    events(&mut client);
    client.tick(at(DEFAULT_BASE_MS));
    assert_eq!(events(&mut client), [Event::Reconnect { after_ms: 0 }]);
}

#[test]
fn a_tick_before_the_reported_deadline_does_nothing() {
    let mut client = Client::new(Config::new("me"));
    client.connected();
    sent(&mut client);
    events(&mut client);

    let next = client.poll_timeout().expect("a live link has a keepalive");
    client.tick(at(next - 1));
    assert_eq!(sent(&mut client), "");
    assert!(events(&mut client).is_empty());
    assert_eq!(client.poll_timeout(), Some(next));

    client.tick(at(next));
    assert_ne!(sent(&mut client), "");
}

#[test]
fn a_host_is_woken_for_a_command_that_runs_out() {
    let mut client = Client::new(Config::new("me"));
    client.connected();
    client.handle_bytes(b":s CAP * LS :labeled-response\r\n");
    client.handle_bytes(b":s CAP * ACK :labeled-response\r\n");
    client.tick(at(5_000));
    client.send_labeled(&Line::new("WHO", vec!["#obby".to_string()]));
    client.tick(at(30_000));
    events(&mut client);
    assert_eq!(client.poll_timeout(), Some(35_000));

    client.tick(at(34_999));
    assert!(events(&mut client).is_empty());
    client.tick(at(35_000));
    assert!(matches!(
        events(&mut client).as_slice(),
        [Event::CommandTimedOut { command }] if command == "WHO"
    ));
    assert_eq!(client.poll_timeout(), Some(40_000));
}

#[test]
fn a_silent_link_is_pinged_once_and_not_given_up_on_early() {
    let mut client = Client::new(Config::new("me"));
    client.connected();
    client.tick(at(35_000));
    sent(&mut client);
    client.tick(at(36_000));
    client.handle_bytes(b":s PONG s :me\r\n");
    for ms in [40_000, 50_000, 65_999] {
        client.tick(at(ms));
        assert_eq!(sent(&mut client), "");
    }
    for ms in [66_000, 70_000, 75_999] {
        client.tick(at(ms));
    }
    assert_eq!(sent(&mut client), "PING me\r\n");
    assert!(!events(&mut client).iter().any(|e| matches!(e, Event::LinkDead)));
    client.tick(at(76_000));
    assert!(events(&mut client).iter().any(|e| matches!(e, Event::LinkDead)));
}

#[test]
fn the_nick_follows_a_rename() {
    let mut client = Client::new(Config::new("me"));
    client.connected();
    client.handle_bytes(b":s 001 me :Welcome\r\n");
    client.handle_bytes(b":me!u@h NICK you\r\n");
    assert_eq!(client.nick(), "you");
    assert_eq!(client.model().me.nick, "you");
    client.handle_bytes(b":bob!u@h NICK rob\r\n");
    assert_eq!(client.nick(), "you");

    sent(&mut client);
    client.tick(at(PING_KEEPALIVE_MS));
    assert_eq!(sent(&mut client), "PING you\r\n");
}

#[test]
fn our_words_after_a_rename_are_our_own() {
    let mut client = Client::new(Config::new("me"));
    client.connected();
    client.handle_bytes(b":s 001 me :Welcome\r\n:me!u@h JOIN #obby\r\n:me!u@h NICK you\r\n");
    client.command(Command::SendMessage { target: "#obby".to_string(), text: "hi".to_string() });
    let channels = client.model().channels();
    let channel = channels[0].1;
    let said = channel.log.last().expect("recorded");
    assert!(said.own);
    assert_eq!(said.sender, "you");
    assert_eq!(channel.unread, 0);
}
