use obby_client::client::Client;
use obby_client::command::{Command, Typing};
use obby_client::config::Config;
use obby_client::model::MessageKind;

fn ready(caps: &[u8]) -> Client {
    let mut client = Client::new(Config::new("me"));
    client.connected();
    client.handle_bytes(b":s CAP * LS :echo-message labeled-response\r\n");
    client.handle_bytes(caps);
    client.handle_bytes(b":s 001 me :Welcome\r\n");
    client.handle_bytes(b":s 005 me CHANTYPES=# :are supported\r\n");
    client.handle_bytes(b":me!u@h JOIN #obby\r\n");
    while client.poll_event().is_some() {}
    while client.poll_transmit().is_some() {}
    client
}

fn sent(client: &mut Client) -> String {
    let mut out = String::new();
    while let Some(bytes) = client.poll_transmit() {
        out.push_str(&String::from_utf8_lossy(&bytes));
    }
    out
}

fn log_len(client: &Client, channel: &str) -> usize {
    client
        .model()
        .channel(&client.isupport().fold(channel))
        .map_or(0, |c| c.log.len())
}

#[test]
fn without_echo_message_we_record_our_own_message_ourselves() {
    let mut client = ready(b":s CAP * NAK :echo-message\r\n");
    client.command(Command::SendMessage {
        target: "#obby".to_string(),
        text: "hello".to_string(),
    });
    assert!(sent(&mut client).contains("PRIVMSG #obby hello"));
    assert_eq!(
        log_len(&client, "#obby"),
        1,
        "no echo is coming, so nothing else will record it"
    );
    let channel = client
        .model()
        .channel(&client.isupport().fold("#obby"))
        .expect("channel");
    assert!(channel.log.last().expect("message").own);
}

#[test]
fn with_echo_message_we_wait_for_the_server_rather_than_double_up() {
    let mut client = ready(b":s CAP * ACK :echo-message\r\n");
    client.command(Command::SendMessage {
        target: "#obby".to_string(),
        text: "hello".to_string(),
    });
    assert_eq!(
        log_len(&client, "#obby"),
        0,
        "recording it now and again on the echo is how a message appears twice"
    );

    client.handle_bytes(b"@msgid=e1 :me!u@h PRIVMSG #obby :hello\r\n");
    assert_eq!(log_len(&client, "#obby"), 1);
}

#[test]
fn an_action_is_wrapped_as_ctcp_and_read_back_as_one() {
    let mut client = ready(b":s CAP * NAK :echo-message\r\n");
    client.command(Command::SendAction {
        target: "#obby".to_string(),
        text: "waves".to_string(),
    });
    assert!(sent(&mut client).contains("\u{1}ACTION waves\u{1}"));
    let channel = client
        .model()
        .channel(&client.isupport().fold("#obby"))
        .expect("channel");
    let message = channel.log.last().expect("message");
    assert_eq!(
        message.kind,
        MessageKind::Ctcp {
            command: "ACTION".to_string()
        }
    );
    assert_eq!(message.text, "waves");
}

#[test]
fn joining_and_parting_go_out_as_written() {
    let mut client = ready(b":s CAP * NAK :echo-message\r\n");
    client.command(Command::Join {
        channel: "#secret".to_string(),
        key: Some("hunter2".to_string()),
    });
    client.command(Command::Part {
        channel: "#obby".to_string(),
        reason: Some("see you".to_string()),
    });
    let sent = sent(&mut client);
    assert!(sent.contains("JOIN #secret hunter2"));
    assert!(
        sent.contains("PART #obby :see you"),
        "a reason with a space needs its marker"
    );
}

#[test]
fn clearing_a_topic_is_distinguishable_from_asking_for_one() {
    let mut client = ready(b":s CAP * NAK :echo-message\r\n");
    client.command(Command::SetTopic {
        channel: "#obby".to_string(),
        topic: None,
    });
    assert!(
        sent(&mut client).contains("TOPIC #obby :"),
        "an empty trailing parameter clears the topic; omitting it would only ask what it is"
    );
}

#[test]
fn a_reaction_names_the_message_it_reacts_to() {
    let mut client = ready(b":s CAP * NAK :echo-message\r\n");
    client.command(Command::AddReaction {
        target: "#obby".to_string(),
        msgid: "m1".to_string(),
        emoji: "👍".to_string(),
    });
    let sent = sent(&mut client);
    assert!(sent.contains("+draft/react=👍"));
    assert!(sent.contains("+draft/reply=m1"));
    assert!(sent.contains("TAGMSG #obby"));
}

#[test]
fn typing_says_how_far_along_we_are() {
    let mut client = ready(b":s CAP * NAK :echo-message\r\n");
    client.command(Command::SetTyping {
        target: "#obby".to_string(),
        state: Typing::Active,
    });
    assert!(sent(&mut client).contains("+typing=active"));
}

#[test]
fn asking_for_history_pages_backwards_from_a_message() {
    let mut client = ready(b":s CAP * NAK :echo-message\r\n");
    client.command(Command::FetchHistory {
        target: "#obby".to_string(),
        before: None,
        limit: 50,
    });
    assert!(sent(&mut client).contains("CHATHISTORY LATEST #obby * 50"));

    client.command(Command::FetchHistory {
        target: "#obby".to_string(),
        before: Some("m1".to_string()),
        limit: 50,
    });
    assert!(sent(&mut client).contains("CHATHISTORY BEFORE #obby msgid=m1 50"));
}

#[test]
fn a_raw_line_that_will_not_parse_is_not_sent() {
    let mut client = ready(b":s CAP * NAK :echo-message\r\n");
    client.command(Command::SendRawLine {
        line: String::new(),
    });
    assert_eq!(
        sent(&mut client),
        "",
        "a malformed line must not reach the wire"
    );
}

#[test]
fn every_command_has_its_line() {
    let cases = [
        (Command::SendNotice { target: "bob".to_string(), text: "hi".to_string() }, "NOTICE bob hi\r\n"),
        (Command::SetNick { nick: "you".to_string() }, "NICK you\r\n"),
        (Command::SetAway { message: Some("out".to_string()) }, "AWAY out\r\n"),
        (Command::SetAway { message: None }, "AWAY\r\n"),
        (
            Command::RedactMessage {
                target: "#obby".to_string(),
                msgid: "m1".to_string(),
                reason: None,
            },
            "REDACT #obby m1\r\n",
        ),
        (
            Command::MarkRead { target: "#obby".to_string(), timestamp: "t".to_string() },
            "MARKREAD #obby timestamp=t\r\n",
        ),
        (
            Command::SetMetadata { key: "k".to_string(), value: Some("v".to_string()) },
            "METADATA * SET k v\r\n",
        ),
        (
            Command::SubscribeMetadata { keys: vec!["a".to_string(), "b".to_string()] },
            "METADATA * SUB a b\r\n",
        ),
        (Command::WatchNicks { nicks: vec!["a".to_string(), "b".to_string()] }, "MONITOR + a,b\r\n"),
        (Command::UnwatchNicks { nicks: vec!["a".to_string()] }, "MONITOR - a\r\n"),
        (Command::Quit { reason: Some("bye".to_string()) }, "QUIT bye\r\n"),
        (Command::SendRawLine { line: "VERSION".to_string() }, "VERSION\r\n"),
        (
            Command::RemoveReaction {
                target: "#obby".to_string(),
                msgid: "m1".to_string(),
                emoji: "x".to_string(),
            },
            "@+draft/unreact=x;+draft/reply=m1 TAGMSG #obby\r\n",
        ),
    ];
    for (command, line) in cases {
        let mut client = ready(b":s CAP * NAK :echo-message\r\n");
        client.command(command);
        assert_eq!(sent(&mut client), line);
    }
}

#[test]
fn watched_nicks_are_known_once_the_server_tells() {
    let mut client = ready(b":s CAP * NAK :echo-message\r\n");
    client.command(Command::WatchNicks { nicks: vec!["Bob".to_string()] });
    let bob = client.isupport().fold("bob");
    assert!(client.monitor().is_watching(&bob) && !client.monitor().is_online(&bob));
    client.handle_bytes(b":s 730 me :Bob!u@h\r\n");
    assert!(client.monitor().is_online(&bob));
    client.handle_bytes(b":s 731 me :Bob\r\n");
    assert!(!client.monitor().is_online(&bob));
}
