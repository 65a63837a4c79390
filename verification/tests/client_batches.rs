use obby_client::client::Client;
use obby_client::config::Config;

fn registered() -> Client {
    let mut client = Client::new(Config::new("me"));
    client.handle_bytes(b":s 001 me :Welcome\r\n");
    client.handle_bytes(b":s 005 me CHANTYPES=# :are supported\r\n");
    client.handle_bytes(b":me!u@h JOIN #obby\r\n");
    while client.poll_event().is_some() {}
    client
}

fn texts(client: &Client) -> Vec<String> {
    let folded = client.isupport().fold("#obby");
    client
        .model()
        .channel(&folded)
        .expect("channel")
        .log
        .iter()
        .into_iter()
        .map(|m| m.text.clone())
        .collect()
}

#[test]
fn a_batched_line_is_held_until_the_batch_closes() {
    let mut client = registered();
    client.handle_bytes(b":s BATCH +h chathistory #obby\r\n");
    client.handle_bytes(b"@batch=h;msgid=1 :bob!u@h PRIVMSG #obby :held\r\n");
    assert!(
        texts(&client).is_empty(),
        "history must land as one block, not trickle in"
    );

    client.handle_bytes(b":s BATCH -h\r\n");
    assert_eq!(texts(&client), ["held"]);
}

#[test]
fn history_is_marked_as_replayed_and_live_traffic_is_not() {
    let mut client = registered();
    client.handle_bytes(b"@msgid=live :bob!u@h PRIVMSG #obby :now\r\n");
    client.handle_bytes(b":s BATCH +h chathistory #obby\r\n");
    client.handle_bytes(b"@batch=h;msgid=old :bob!u@h PRIVMSG #obby :before\r\n");
    client.handle_bytes(b":s BATCH -h\r\n");

    let folded = client.isupport().fold("#obby");
    let channel = client.model().channel(&folded).expect("channel");
    assert_eq!(channel.log.get("live").map(|m| m.historical), Some(false));
    assert_eq!(channel.log.get("old").map(|m| m.historical), Some(true));
}

#[test]
fn a_batch_nested_inside_history_is_still_history() {
    let mut client = registered();
    client.handle_bytes(b":s BATCH +outer chathistory #obby\r\n");
    client.handle_bytes(b"@batch=outer :s BATCH +inner netsplit a.net b.net\r\n");
    client.handle_bytes(b"@batch=inner;msgid=n1 :bob!u@h PRIVMSG #obby :inside\r\n");
    client.handle_bytes(b":s BATCH -inner\r\n");
    client.handle_bytes(b":s BATCH -outer\r\n");

    let folded = client.isupport().fold("#obby");
    let channel = client.model().channel(&folded).expect("channel");
    assert_eq!(
        channel.log.get("n1").map(|m| m.historical),
        Some(true),
        "the ancestor chain decides, not the innermost batch type"
    );
}

#[test]
fn a_line_tagged_for_an_unknown_batch_is_still_delivered() {
    let mut client = registered();
    client.handle_bytes(b"@batch=never-opened;msgid=x :bob!u@h PRIVMSG #obby :orphan\r\n");
    assert_eq!(
        texts(&client),
        ["orphan"],
        "dropping it would lose a message whenever we miss a BATCH open"
    );
}

#[test]
fn history_replayed_twice_is_stored_once() {
    let mut client = registered();
    for _ in 0..2 {
        client.handle_bytes(b":s BATCH +h chathistory #obby\r\n");
        client.handle_bytes(b"@batch=h;msgid=dup :bob!u@h PRIVMSG #obby :again\r\n");
        client.handle_bytes(b":s BATCH -h\r\n");
    }
    assert_eq!(texts(&client), ["again"]);
}
