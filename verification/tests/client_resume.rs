use obby_client::client::Client;
use obby_client::command::Command;
use obby_client::config::Config;

fn sent(client: &mut Client) -> String {
    let mut out = String::new();
    while let Some(bytes) = client.poll_transmit() {
        out.push_str(&String::from_utf8_lossy(&bytes));
    }
    out
}

/// A client that has been around: registered, in two channels, with history.
fn established() -> Client {
    let mut client = Client::new(Config::new("me"));
    client.connected();
    client.handle_bytes(b":s CAP * LS :draft/chathistory\r\n");
    client.handle_bytes(b":s CAP * ACK :draft/chathistory\r\n");
    client.handle_bytes(b":s 001 me :Welcome\r\n");
    client.handle_bytes(b":s 005 me CHANTYPES=# :are supported\r\n");
    client.handle_bytes(b":me!u@h JOIN #obby\r\n");
    client.handle_bytes(b":me!u@h JOIN #other\r\n");
    client.handle_bytes(b":bob!u@h JOIN #obby\r\n");
    client.handle_bytes(b"@msgid=last :bob!u@h PRIVMSG #obby :before the drop\r\n");
    while client.poll_event().is_some() {}
    sent(&mut client);
    client
}

#[test]
fn a_reconnect_rejoins_every_channel_and_asks_only_for_what_it_missed() {
    let mut client = established();
    client.disconnected();
    client.connected();
    sent(&mut client);

    client.handle_bytes(b":s CAP * LS :draft/chathistory\r\n");
    client.handle_bytes(b":s CAP * ACK :draft/chathistory\r\n");
    client.handle_bytes(b":s 001 me :Welcome back\r\n");
    let replay = sent(&mut client);

    assert!(replay.contains("JOIN #obby"));
    assert!(replay.contains("JOIN #other"));
    assert!(
        replay.contains("CHATHISTORY AFTER #obby msgid=last 100"),
        "resuming from the newest message we hold beats refetching a window, got: {replay}"
    );
    assert!(
        !replay.contains("CHATHISTORY AFTER #other"),
        "a channel we have no message for has no point to resume from"
    );
}

#[test]
fn the_scrollback_survives_but_the_member_list_does_not() {
    let mut client = established();
    let folded = client.isupport().fold("#obby");
    assert_eq!(
        client.model().channel(&folded).map(|c| c.members.len()),
        Some(1)
    );

    client.disconnected();

    let channel = client
        .model()
        .channel(&folded)
        .expect("the channel outlives the link");
    assert_eq!(channel.log.len(), 1, "the messages happened, so they stay");
    assert!(
        channel.members.is_empty(),
        "who is in a channel is only knowable while connected, so a stale list is a lie"
    );
}

#[test]
fn a_first_connection_replays_nothing() {
    let mut client = Client::new(Config::new("me"));
    client.connected();
    sent(&mut client);
    client.handle_bytes(b":s 001 me :Welcome\r\n");
    assert_eq!(sent(&mut client), "", "there is nothing to resume into");
}

#[test]
fn capabilities_are_renegotiated_rather_than_assumed_to_survive() {
    let mut client = established();
    assert!(client.caps().has("draft/chathistory"));
    client.disconnected();
    assert!(
        !client.caps().has("draft/chathistory"),
        "the new link is a new negotiation; assuming otherwise sends commands the server never agreed to"
    );
}

#[test]
fn a_rejoin_carries_the_key_and_what_we_asked_for_is_asked_again() {
    let mut client = Client::new(Config::new("me"));
    client.connected();
    client.handle_bytes(b":s 001 me :Welcome\r\n");
    client.command(Command::Join { channel: "#k".to_string(), key: Some("sesame".to_string()) });
    client.command(Command::SubscribeMetadata { keys: vec!["avatar".to_string(), "avatar".to_string()] });
    client.command(Command::WatchNicks { nicks: vec!["bob".to_string()] });
    client.handle_bytes(b":me!u@h JOIN #k\r\n");
    client.disconnected();
    client.connected();
    sent(&mut client);
    client.handle_bytes(b":s 001 me :Welcome back\r\n");
    assert_eq!(sent(&mut client), "MONITOR + bob\r\nMETADATA * SUB avatar\r\nJOIN #k sesame\r\n");
}
