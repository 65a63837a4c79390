use obby_client::sorted::{SortedMap, SortedSet};
use obby_client::model::{Log, Membership, Message, MessageKey, MessageKind, Model, DEFAULT_RETENTION};
use obby_client::wire::{Casemapping, Prefix};

fn message(seq: u64, time_ms: u64, sender: &str, text: &str) -> Message {
    let mut message = Message::new(MessageKey { time_ms, seq }, sender.to_string(), MessageKind::Privmsg);
    message.text = text.to_string();
    message
}

fn with_id(mut message: Message, msgid: &str) -> Message {
    message.msgid = Some(msgid.to_string());
    message
}

#[test]
fn orders_by_timestamp_not_by_arrival() {
    let mut log = Log::default();
    assert!(log.insert(message(0, 200, "a", "second")));
    assert!(log.insert(message(1, 100, "a", "first")));
    let texts: Vec<&str> = log.iter().into_iter().map(|m| m.text.as_str()).collect();
    assert_eq!(
        texts,
        ["first", "second"],
        "a backfilled message sorts into place"
    );
}

#[test]
fn breaks_a_timestamp_tie_by_arrival() {
    let mut log = Log::default();
    log.insert(message(0, 100, "a", "one"));
    log.insert(message(1, 100, "a", "two"));
    log.insert(message(2, 100, "a", "three"));
    let texts: Vec<&str> = log.iter().into_iter().map(|m| m.text.as_str()).collect();
    assert_eq!(texts, ["one", "two", "three"]);
}

#[test]
fn refuses_a_message_it_already_has_by_id() {
    let mut log = Log::default();
    assert!(log.insert(with_id(message(0, 100, "a", "hi"), "x1")));
    assert!(
        !log.insert(with_id(message(1, 100, "a", "hi"), "x1")),
        "a bouncer replaying the same msgid must not double up"
    );
    assert_eq!(log.len(), 1);
}

#[test]
fn refuses_an_identical_message_with_no_id() {
    let mut log = Log::default();
    assert!(log.insert(message(0, 100, "a", "hi")));
    assert!(!log.insert(message(1, 100, "a", "hi")));
    assert_eq!(log.len(), 1);
}

#[test]
fn keeps_the_same_text_at_a_different_instant() {
    let mut log = Log::default();
    assert!(log.insert(message(0, 100, "a", "hi")));
    assert!(
        log.insert(message(1, 101, "a", "hi")),
        "saying it twice is not a duplicate"
    );
    assert_eq!(log.len(), 2);
}

#[test]
fn keeps_the_same_text_from_a_different_sender() {
    let mut log = Log::default();
    assert!(log.insert(message(0, 100, "a", "hi")));
    assert!(log.insert(message(1, 100, "b", "hi")));
    assert_eq!(log.len(), 2);
}

#[test]
fn trims_the_oldest_once_it_is_full() {
    let mut log = Log::with_retention(3);
    for i in 0..5 {
        log.insert(message(i, 100 + i, "a", "x"));
    }
    assert_eq!(log.len(), 3);
    assert_eq!(log.first().map(|m| m.key.time_ms), Some(102));
    assert_eq!(log.last().map(|m| m.key.time_ms), Some(104));
}

#[test]
fn trimming_forgets_the_id_index_too() {
    let mut log = Log::with_retention(2);
    log.insert(with_id(message(0, 100, "a", "x"), "old"));
    log.insert(with_id(message(1, 101, "a", "x"), "mid"));
    log.insert(with_id(message(2, 102, "a", "x"), "new"));
    assert!(
        !log.contains("old"),
        "a dropped message must not linger in the index"
    );
    assert!(log.contains("new"));
    assert!(log.get("old").is_none());
}

#[test]
fn the_cap_applies_to_backfill_the_same_way() {
    let mut log = Log::with_retention(2);
    log.insert(message(0, 300, "a", "live"));
    log.insert(message(1, 100, "a", "old"));
    log.insert(message(2, 200, "a", "older"));
    assert_eq!(log.len(), 2);
    let texts: Vec<&str> = log.iter().into_iter().map(|m| m.text.as_str()).collect();
    assert_eq!(
        texts,
        ["older", "live"],
        "the oldest goes, whichever way it arrived"
    );
}

#[test]
fn finds_a_message_again_to_react_to_it() {
    let mut log = Log::default();
    log.insert(with_id(message(0, 100, "a", "hi"), "x1"));
    let found = log.get_mut("x1").expect("the message is there");
    found.reactions.insert("👍".to_string(), vec!["b".to_string()]);
    assert_eq!(log.get("x1").map(|m| m.reactions.len()), Some(1));
}

#[test]
fn ranks_prefixes_in_the_servers_order_not_the_order_granted() {
    let order = Prefix::parse("(qaohv)~&@%+").expect("valid prefix");
    let mut member = Membership::default();
    member.grant('+', &order);
    member.grant('~', &order);
    member.grant('@', &order);
    assert_eq!(member.prefixes, "~@+");
    assert_eq!(member.top_prefix(), Some('~'));
    member.revoke('~');
    assert_eq!(member.top_prefix(), Some('@'));
}

#[test]
fn granting_the_same_prefix_twice_changes_nothing() {
    let order = Prefix::default();
    let mut member = Membership::default();
    member.grant('@', &order);
    member.grant('@', &order);
    assert_eq!(member.prefixes, "@");
}

#[test]
fn a_rename_moves_the_member_rather_than_leaving_a_twin() {
    let map = Casemapping::Rfc1459;
    let mut model = Model::default();
    model
        .channel_mut(map.fold("#obby"), "#obby")
        .members
        .insert(map.fold("[nick]"), Membership::default());
    model.person_mut(map.fold("[nick]"), "[nick]");

    model.rename(map, "[nick]", "{NICK}2");

    let channel = model.channel(&map.fold("#obby")).expect("channel");
    assert_eq!(
        channel.members.len(),
        1,
        "folding {{}} onto [] must not leave two entries"
    );
    assert!(channel.members.contains_key(&map.fold("{nick}2")));
    assert_eq!(
        model.person(&map.fold("{nick}2")).map(|p| p.nick.as_str()),
        Some("{NICK}2"),
        "the person is renamed once, not once per channel"
    );
}

#[test]
fn a_rename_of_ourselves_updates_who_we_are() {
    let map = Casemapping::Rfc1459;
    let mut model = Model::default();
    model.me.nick = "me".to_string();
    model.rename(map, "ME", "you");
    assert_eq!(
        model.me.nick, "you",
        "the server may echo our nick in any case"
    );
}

#[test]
fn model_a_quit_reports_every_channel_they_were_in() {
    let map = Casemapping::Rfc1459;
    let mut model = Model::default();
    for name in ["#a", "#b", "#c"] {
        model
            .channel_mut(map.fold(name), name)
            .members
            .insert(map.fold("bob"), Membership::default());
    }
    model
        .channel_mut(map.fold("#c"), "#c")
        .members
        .remove(&map.fold("bob"));

    let left = model.remove_everywhere(&map.fold("bob"));
    assert_eq!(left, [map.fold("#a"), map.fold("#b")]);
}

#[test]
fn retention_reaches_every_target_it_creates() {
    let map = Casemapping::Rfc1459;
    let mut model = Model::with_retention(2);
    let channel = model.channel_mut(map.fold("#a"), "#a");
    for i in 0..4 {
        channel.log.insert(message(i, 100 + i, "a", "x"));
    }
    assert_eq!(channel.log.len(), 2);

    let query = model.conversation_mut(map.fold("bob"), "bob");
    for i in 0..4 {
        query.log.insert(message(i, 100 + i, "bob", "x"));
    }
    assert_eq!(query.log.len(), 2);
}

#[test]
fn a_default_model_keeps_more_than_one_message() {
    let map = Casemapping::Rfc1459;
    let mut model = Model::default();
    let channel = model.channel_mut(map.fold("#a"), "#a");
    for i in 0..10 {
        channel.log.insert(message(i, 100 + i, "a", "x"));
    }
    assert_eq!(channel.log.len(), 10);
}

#[test]
fn sequence_numbers_never_repeat() {
    let mut model = Model::default();
    let first = model.next_key(100);
    let second = model.next_key(100);
    assert!(second > first);
}

#[test]
fn a_log_keeps_at_least_one_message() {
    let mut log = Log::with_retention(0);
    assert!(log.is_empty());
    log.insert(message(0, 100, "a", "one"));
    log.insert(message(1, 101, "a", "two"));
    assert_eq!(log.len(), 1);
    assert_eq!(log.last().map(|m| m.text.as_str()), Some("two"));
}

#[test]
fn a_message_older_than_all_that_is_kept_leaves_the_log_as_it_was() {
    let mut log = Log::with_retention(2);
    log.insert(with_id(message(0, 200, "a", "x"), "m1"));
    log.insert(with_id(message(1, 300, "a", "y"), "m2"));
    assert!(log.insert(with_id(message(2, 100, "a", "z"), "m0")));
    assert!(!log.contains("m0"));
    assert!(log.contains("m1") && log.contains("m2"));
}

#[test]
fn a_message_of_another_kind_is_no_twin() {
    let mut log = Log::default();
    log.insert(message(0, 100, "a", "hi"));
    let mut notice = Message::new(MessageKey { time_ms: 100, seq: 1 }, "a".to_string(), MessageKind::Notice);
    notice.text = "hi".to_string();
    assert!(log.insert(notice));
    assert_eq!(log.len(), 2);
}

#[test]
fn a_granted_prefix_that_is_taken_away_leaves_the_others() {
    let order = Prefix::default();
    let mut member = Membership { prefixes: "@+".to_string() };
    member.grant('%', &order);
    member.revoke('%');
    assert_eq!(member.prefixes, "@+");
    assert_eq!(Membership::default().top_prefix(), None);
}

#[test]
fn a_rename_carries_the_conversation_along() {
    let map = Casemapping::Rfc1459;
    let mut model = Model::default();
    model.conversation_mut(map.fold("bob"), "bob").unread = 3;
    model.rename(map, "bob", "Robert");
    assert!(model.conversation(&map.fold("bob")).is_none());
    let conversation = model.conversation(&map.fold("robert")).expect("the conversation");
    assert_eq!((conversation.nick.as_str(), conversation.unread), ("Robert", 3));
}

#[test]
fn strangers_are_forgotten_and_those_we_know_are_not() {
    let map = Casemapping::Rfc1459;
    let mut model = Model::default();
    model.me.nick = "me".to_string();
    for nick in ["me", "member", "friend", "stranger"] {
        model.person_mut(map.fold(nick), nick);
    }
    model.channel_mut(map.fold("#a"), "#a").members.insert(map.fold("member"), Membership::default());
    model.conversation_mut(map.fold("friend"), "friend");
    model.forget_strangers();
    assert!(model.person(&map.fold("stranger")).is_none());
    for nick in ["me", "member", "friend"] {
        assert!(model.person(&map.fold(nick)).is_some(), "{nick}");
    }
}

#[test]
fn clearing_the_members_keeps_the_channel() {
    let map = Casemapping::Rfc1459;
    let mut model = Model::default();
    let channel = model.channel_mut(map.fold("#a"), "#a");
    channel.members.insert(map.fold("bob"), Membership::default());
    channel.log.insert(message(0, 100, "bob", "hi"));
    model.clear_members();
    let channel = model.channel(&map.fold("#a")).expect("the channel");
    assert!(channel.members.is_empty());
    assert_eq!(channel.log.len(), 1);
}

#[test]
fn typing_is_news_only_when_it_changes() {
    let map = Casemapping::Rfc1459;
    let mut model = Model::default();
    model.channel_mut(map.fold("#a"), "#a");
    assert!(model.set_typing(&map.fold("#a"), map.fold("bob"), true));
    assert!(!model.set_typing(&map.fold("#a"), map.fold("bob"), true));
    assert!(model.set_typing(&map.fold("#a"), map.fold("bob"), false));
    assert!(!model.set_typing(&map.fold("#nowhere"), map.fold("bob"), true));
}

#[test]
fn the_default_retention_is_five_thousand() {
    assert_eq!(DEFAULT_RETENTION, 5000);
}

#[test]
fn a_log_is_given_back_by_its_lists() {
    let mut log = Log::with_retention(3);
    log.insert(with_id(message(0, 100, "bob", "first"), "m0"));
    log.insert(message(1, 101, "bob", "second"));
    log.insert(with_id(message(2, 101, "bob", "second"), "m2"));

    let messages: Vec<Message> = log.iter().into_iter().cloned().collect();
    let ids: Vec<(String, MessageKey)> =
        log.ids().into_iter().map(|(id, key)| (id.clone(), *key)).collect();
    assert_eq!(ids[1], ("m2".to_string(), MessageKey { time_ms: 101, seq: 2 }));

    let mut back = Log::from_lists(messages, ids, log.retention());
    assert_eq!(back.len(), 3);
    assert_eq!(back.get("m0").map(|m| m.text.as_str()), Some("first"));
    assert_eq!(back.last().and_then(|m| m.msgid.as_deref()), Some("m2"));
    assert!(!back.insert(with_id(message(3, 500, "bob", "again"), "m2")));
    assert!(back.insert(message(4, 600, "bob", "new")));
    assert_eq!(back.len(), 3, "it keeps its bound");
    assert!(back.get("m0").is_none(), "the oldest made room");
}

#[test]
fn of_two_messages_in_one_place_the_later_counts() {
    let log = Log::from_lists(
        vec![message(0, 100, "bob", "old"), message(0, 100, "bob", "new")],
        vec![],
        10,
    );
    assert_eq!(log.len(), 1);
    assert_eq!(log.first().map(|m| m.text.as_str()), Some("new"));
}

#[test]
fn a_twin_at_the_last_instant_is_refused_too() {
    let mut log = Log::default();
    assert!(log.insert(message(0, u64::MAX, "a", "hi")));
    assert!(!log.insert(message(1, u64::MAX, "a", "hi")));
    assert_eq!(log.len(), 1);
}

#[test]
fn a_message_older_than_all_that_fit_is_the_one_dropped() {
    let mut log = Log::with_retention(2);
    log.insert(message(0, 200, "a", "x"));
    log.insert(message(1, 201, "a", "y"));
    assert!(log.insert(message(2, 100, "a", "older")), "it was not there before");
    assert_eq!(log.len(), 2);
    assert_eq!(log.first().map(|m| m.key.time_ms), Some(200));
}

#[test]
fn a_copied_map_holds_the_same_keys_and_values() {
    let mut map = SortedMap::new();
    map.insert("b".to_string(), "2".to_string());
    map.insert("a".to_string(), "1".to_string());
    let copy = map.clone();
    map.clear();
    assert_eq!(copy.len(), 2);
    assert_eq!(copy.get(&"a".to_string()), Some(&"1".to_string()));
    assert_eq!(copy.get(&"b".to_string()), Some(&"2".to_string()));

    let mut set = SortedSet::new();
    set.insert('x');
    let copy = set.clone();
    assert_eq!(copy.len(), 1);
    assert!(copy.contains(&'x'));
}
