use obby_client::client::Client;
use obby_client::command::Command;
use obby_client::config::Config;
use obby_client::echo::{answer, react, Reaction};
use obby_client::event::Event;
use obby_client::timer::Now;

fn new_client() -> Client {
    Client::new(Config::new("me"))
}

#[test]
fn connected_queues_the_registration_burst() {
    let mut client = new_client();
    client.connected();
    let first = client
        .poll_transmit()
        .expect("registration starts on connect");
    assert!(first.starts_with(b"CAP LS 302"));
}

#[test]
fn poll_transmit_drains_one_chunk_at_a_time() {
    let mut client = new_client();
    client.connected();
    assert!(client.poll_transmit().is_some(), "CAP LS");
    assert!(client.poll_transmit().is_some(), "NICK");
    assert!(client.poll_transmit().is_some(), "USER");
    assert!(client.poll_transmit().is_none());
}

#[test]
fn handle_bytes_feeds_a_line_to_the_engine() {
    let mut client = new_client();
    client.handle_bytes(b"PING :abc\r\n");
    let reply = client.poll_transmit().expect("a PING gets a PONG");
    assert_eq!(reply, b"PONG abc\r\n");
}

#[test]
fn tick_advances_the_clock_and_reports_the_next_deadline() {
    let mut client = new_client();
    client.connected();
    while client.poll_transmit().is_some() {}
    let first_deadline = client
        .poll_timeout()
        .expect("keepalive is armed on connect");
    client.tick(Now { monotonic_ms: first_deadline, unix_ms: 0 });
    let next_deadline = client
        .poll_timeout()
        .expect("a fired deadline is replaced by the next one");
    assert!(
        next_deadline > first_deadline,
        "the dead-link timer now owns the next wake-up"
    );
}

#[test]
fn command_forwards_to_the_engine() {
    let mut client = new_client();
    client.command(Command::SetNick {
        nick: "other".to_string(),
    });
    let sent = client.poll_transmit().expect("a NICK command is sent");
    assert_eq!(sent, b"NICK other\r\n");
}

#[test]
fn drain_events_collects_every_pending_event_in_one_call() {
    let mut client = new_client();
    client.handle_bytes(b":s 001 me :Welcome\r\n");
    client.handle_bytes(b":s 005 me CASEMAPPING=ascii :are supported\r\n");
    let events = client.drain_events();
    assert_eq!(events.len(), 2, "one call drains everything queued so far");
    assert!(
        client.drain_events().is_empty(),
        "a second call finds nothing left"
    );
}

#[test]
fn drain_events_collects_everything_queued_so_far() {
    let mut client = Client::new(Config::new("me"));
    client.handle_bytes(b":s 001 me :Welcome\r\n");
    client.handle_bytes(b":s 005 me CASEMAPPING=ascii :are supported\r\n");
    let events = client.drain_events();
    assert_eq!(events.len(), 2, "one call drains everything queued so far");
    assert!(
        client.drain_events().is_empty(),
        "a second call finds nothing left"
    );
}

#[test]
fn hello_is_answered_unless_it_is_our_own() {
    assert_eq!(answer("me", "bob", "well hello there"), Some("hello bob".to_string()));
    assert_eq!(answer("me", "me", "hello"), None);
    assert_eq!(answer("me", "bob", "goodbye"), None);
    assert_eq!(answer("me", "bob", "hell"), None);
}

#[test]
fn the_bot_joins_hears_and_stops() {
    let mut client = new_client();
    client.handle_bytes(b":s 001 me :Welcome\r\n:me!u@h JOIN #obby\r\n:bob!u@h PRIVMSG #OBBY :hello\r\n");
    let events = client.drain_events();
    let reactions: Vec<Reaction> = events
        .iter()
        .map(|event| react(client.nick(), client.casemapping(), client.model(), event))
        .collect();
    assert_eq!(
        reactions,
        [
            Reaction::Join { nick: "me".to_string() },
            Reaction::Ignore,
            Reaction::Heard {
                target: "#OBBY".to_string(),
                sender: "bob".to_string(),
                text: "hello".to_string(),
                answer: Some("hello bob".to_string()),
            },
        ]
    );
    assert_eq!(
        react("me", client.casemapping(), client.model(), &Event::LinkDead),
        Reaction::Stop
    );
}
