use obby_client::client::Client;
use obby_client::config::Config;
use obby_client::event::Event;
use obby_client::timer::{Now, TYPING_EXPIRY_MS};

fn at(ms: u64) -> Now {
    Now {
        monotonic_ms: ms,
        unix_ms: 1_700_000_000_000 + ms,
    }
}

fn joined() -> Client {
    let mut client = Client::new(Config::new("me"));
    client.handle_bytes(b":s 001 me :Welcome\r\n");
    client.handle_bytes(b":s 005 me CHANTYPES=# :are supported\r\n");
    client.handle_bytes(b":me!u@h JOIN #obby\r\n");
    while client.poll_event().is_some() {}
    client
}

fn typing_in(client: &Client, channel: &str) -> usize {
    client
        .model()
        .channel(&client.isupport().fold(channel))
        .map_or(0, |c| c.typing.len())
}

#[test]
fn a_typing_indicator_is_not_a_message() {
    let mut client = joined();
    client.handle_bytes(b"@+typing=active :bob!u@h TAGMSG #obby\r\n");
    assert_eq!(
        client
            .model()
            .channel(&client.isupport().fold("#obby"))
            .map(|c| c.log.len()),
        Some(0),
        "showing it as a message would put an empty row in the conversation"
    );
    assert_eq!(typing_in(&client, "#obby"), 1);
}

#[test]
fn typing_stops_when_they_say_so() {
    let mut client = joined();
    client.handle_bytes(b"@+typing=active :bob!u@h TAGMSG #obby\r\n");
    client.handle_bytes(b"@+typing=done :bob!u@h TAGMSG #obby\r\n");
    assert_eq!(typing_in(&client, "#obby"), 0);
}

#[test]
fn typing_goes_stale_on_its_own() {
    let mut client = joined();
    client.handle_bytes(b"@+typing=active :bob!u@h TAGMSG #obby\r\n");
    while client.poll_event().is_some() {}

    client.tick(at(TYPING_EXPIRY_MS - 1));
    assert_eq!(typing_in(&client, "#obby"), 1);

    client.tick(at(TYPING_EXPIRY_MS));
    assert_eq!(
        typing_in(&client, "#obby"),
        0,
        "the done that would clear it can be lost, so it must expire by itself"
    );
    assert!(
        client
            .poll_event()
            .is_some_and(|event| matches!(event, Event::Typing { typing: false, .. }))
    );
}

#[test]
fn a_repeated_indicator_does_not_report_twice() {
    let mut client = joined();
    client.handle_bytes(b"@+typing=active :bob!u@h TAGMSG #obby\r\n");
    while client.poll_event().is_some() {}
    client.handle_bytes(b"@+typing=active :bob!u@h TAGMSG #obby\r\n");
    assert!(
        client.poll_event().is_none(),
        "the indicator repeats on a timer, and reporting each repeat makes it flicker"
    );
}

#[test]
fn typing_at_us_belongs_to_the_conversation_with_the_sender() {
    let mut client = joined();
    client.handle_bytes(b":bob!u@h PRIVMSG me :hi\r\n");
    client.handle_bytes(b"@+typing=active :bob!u@h TAGMSG me\r\n");
    assert_eq!(
        client
            .model()
            .conversation(&client.isupport().fold("bob"))
            .map(|q| q.typing.len()),
        Some(1),
        "a conversation named after ourselves would be nobody"
    );
}
