use obby_client::client::Client;
use obby_client::command::Command;
use obby_client::config::Config;
use obby_client::event::Event;

fn joined() -> Client {
    let mut client = Client::new(Config::new("me"));
    client.handle_bytes(b":s 001 me :Welcome\r\n");
    client.handle_bytes(b":s 005 me CHANTYPES=#^$ :are supported\r\n");
    client.handle_bytes(b":me!u@h JOIN ^general\r\n");
    while client.poll_event().is_some() {}
    client
}

#[test]
fn signalling_is_never_a_message_in_the_channel() {
    let mut client = joined();
    client.handle_bytes(
        br#"@+obsidianirc/rtc={"type":"join","channel":"^general"} :alice!u@h TAGMSG ^general"#,
    );
    client.handle_bytes(b"\r\n");
    assert_eq!(
        client
            .model()
            .channel(&client.isupport().fold("^general"))
            .map(|c| c.log.len()),
        Some(0),
        "a room full of signalling would otherwise fill the conversation with empty rows"
    );
    assert!(
        client
            .poll_event()
            .is_some_and(|e| matches!(e, Event::Voice { .. }))
    );
}

#[test]
fn a_frame_we_cannot_read_is_counted_rather_than_shown() {
    let mut client = joined();
    client.handle_bytes(b"@+obsidianirc/rtc=not-json :alice!u@h TAGMSG ^general\r\n");
    assert_eq!(
        client
            .model()
            .channel(&client.isupport().fold("^general"))
            .map(|c| c.log.len()),
        Some(0)
    );
    assert!(client.dropped_lines() > 0);
}

#[test]
fn an_outbound_frame_rides_the_rtc_tag() {
    let mut client = joined();
    while client.poll_transmit().is_some() {}
    client.command(Command::SendVoiceSignal {
        channel: "^general".to_string(),
        signal_json: r#"{"type":"join","channel":"^general"}"#.to_string(),
    });
    let mut sent = String::new();
    while let Some(bytes) = client.poll_transmit() {
        sent.push_str(&String::from_utf8_lossy(&bytes));
    }
    assert!(sent.contains("+obsidianirc/rtc="));
    assert!(sent.contains("TAGMSG ^general"));
}

#[test]
fn a_room_follows_the_signalling() {
    let mut client = joined();
    client.handle_bytes(
        br#"@+obsidianirc/rtc={"type":"presence","member":"Alice","state":"joined"} :s TAGMSG ^general"#,
    );
    client.handle_bytes(b"\r\n");
    let room = client.room(&client.isupport().fold("^GENERAL")).expect("the room");
    assert!(room.participants.contains_key(&client.isupport().fold("alice")));
    assert!(client.room(&client.isupport().fold("^other")).is_none());
}
