use obby_client::client::Client;
use obby_client::config::{Config, Phase};

fn registered() -> Client {
    let mut client = Client::new(Config::new("me"));
    client.handle_bytes(b":s 001 me :Welcome\r\n");
    client.handle_bytes(b":s 005 me CHANTYPES=# STATUSMSG=@+ PREFIX=(ov)@+ :are supported\r\n");
    while client.poll_event().is_some() {}
    client
}

#[test]
fn a_stream_with_no_newline_does_not_grow_without_bound() {
    let mut client = Client::new(Config::new("me"));
    for _ in 0..32 {
        client.handle_bytes(&[b'A'; 8192]);
    }
    assert!(
        client.dropped_lines() > 0,
        "an oversized line has to be given up on, not accumulated"
    );

    client.handle_bytes(b"\r\n:s 001 me :Welcome\r\n");
    assert_eq!(
        client.phase(),
        Phase::Registered,
        "the connection keeps working once the oversized line is behind us"
    );
}

#[test]
fn an_absurd_server_time_does_not_take_the_process_down() {
    let mut client = registered();
    client.handle_bytes(
        b"@time=99999999999999999-01-01T00:00:00.000Z :bob!u@h PRIVMSG me :hi\r\n",
    );
    let folded = client.isupport().fold("bob");
    assert_eq!(
        client.model().conversation(&folded).map(|q| q.log.len()),
        Some(1),
        "an unusable timestamp falls back to our own, it does not panic or lose the message"
    );
}

#[test]
fn a_channel_we_never_joined_is_never_invented() {
    let mut client = registered();
    client.handle_bytes(b":bob!u@h JOIN #ghost\r\n");
    client.handle_bytes(b":bob!u@h TOPIC #ghost :not ours\r\n");
    client.handle_bytes(b":s 353 me = #ghost :@bob\r\n");
    client.handle_bytes(b":s 332 me #ghost :still not ours\r\n");
    client.handle_bytes(b":bob!u@h MODE #ghost +m\r\n");
    assert_eq!(
        client.model().channels().len(),
        0,
        "a server naming channels we are not in would otherwise grow the model without limit"
    );
}

#[test]
fn a_status_message_still_belongs_to_its_channel() {
    let mut client = registered();
    client.handle_bytes(b":me!u@h JOIN #obby\r\n");
    client.handle_bytes(b"@msgid=s1 :bob!u@h PRIVMSG @#obby :ops only\r\n");

    let channel = client.isupport().fold("#obby");
    assert_eq!(
        client.model().channel(&channel).map(|c| c.log.len()),
        Some(1),
        "a message to the operators of a channel is still a message in that channel"
    );
    assert!(
        client
            .model()
            .conversation(&client.isupport().fold("bob"))
            .is_none(),
        "it must not become a private conversation"
    );
}

#[test]
fn a_line_of_the_largest_legal_length_is_read() {
    let mut client = Client::new(Config::new("me"));
    let mut line = b"PING :".to_vec();
    line.resize(8703, b'x');
    client.handle_bytes(&line);
    client.handle_bytes(b"\r\n");
    assert_eq!(client.dropped_lines(), 0);
    assert!(client.poll_transmit().is_some());
}

#[test]
fn a_longer_one_is_dropped_with_its_rest() {
    let mut client = Client::new(Config::new("me"));
    let mut line = b"PING :".to_vec();
    line.resize(8704, b'x');
    client.handle_bytes(&line);
    assert_eq!(client.dropped_lines(), 1);
    client.handle_bytes(b"\r\nPING :y\r\n");
    assert_eq!(client.poll_transmit(), Some(b"PONG y\r\n".to_vec()));
    assert_eq!(client.poll_transmit(), None);
}

#[test]
fn one_endless_line_is_counted_once() {
    let mut client = Client::new(Config::new("me"));
    for _ in 0..32 {
        client.handle_bytes(&[b'A'; 8192]);
    }
    assert_eq!(client.dropped_lines(), 1);
    client.handle_bytes(b"\r\n");
    assert_eq!(client.dropped_lines(), 1);
    client.handle_bytes(b":s 001 me :Welcome\r\n");
    assert_eq!(client.phase(), Phase::Registered);
}
