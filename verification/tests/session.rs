use obby_client::isupport::Features;
use obby_client::model::{Channel, Conversation, MessageKind, Model, Person};
use obby_client::session::{apply, mentions, metadata, Change};
use obby_client::wire::{Casemapping, Line};

struct Harness {
    model: Model,
    isupport: Features,
    latest_ms: u64,
    historical: bool,
}

impl Harness {
    fn new() -> Self {
        let mut isupport = Features::default();
        isupport.apply("CHANTYPES=#^$");
        isupport.apply("PREFIX=(qaohv)~&@%+");
        isupport.apply("CHANMODES=beI,k,l,imnpst");
        let mut model = Model::default();
        model.me.nick = "me".to_string();
        Self {
            model,
            isupport,
            latest_ms: 1000,
            historical: false,
        }
    }

    /// Put us in a channel, which is the only thing that brings one into being.
    fn joined(mut self, channel: &str) -> Self {
        self.feed(&format!(":me!u@h JOIN {channel}"));
        self
    }

    fn feed(&mut self, raw: &str) -> Vec<Change> {
        let line = Line::parse(raw).expect("the test line should parse");
        apply(&mut self.model, &self.isupport, &mut self.latest_ms, self.historical, &line)
    }

    fn channel(&self, name: &str) -> &Channel {
        self.model
            .channel(&self.isupport.fold(name))
            .expect("the channel should exist")
    }

    fn person(&self, nick: &str) -> &Person {
        self.model
            .person(&self.isupport.fold(nick))
            .expect("we should know this person")
    }

    fn conversation(&self, nick: &str) -> &Conversation {
        self.model
            .conversation(&self.isupport.fold(nick))
            .expect("the conversation should exist")
    }
}

#[test]
fn a_message_to_a_channel_we_never_joined_invents_nothing() {
    let mut h = Harness::new();
    assert!(h.feed(":bob!u@h PRIVMSG #ghost :hello").is_empty());
    assert_eq!(
        h.model.channels().len(),
        0,
        "a server naming channels we are not in would otherwise grow the model without limit"
    );
}

#[test]
fn a_channel_message_lands_in_that_channel() {
    let mut h = Harness::new().joined("#obby");
    let changes = h.feed(":bob!u@h PRIVMSG #obby :hello");
    assert!(
        matches!(changes.first(), Some(Change::Message { target, .. }) if target == "#obby")
    );
    let message = h.channel("#obby").log.last().expect("a message");
    assert_eq!(message.text, "hello");
    assert_eq!(message.sender, "bob");
    assert!(!message.own);
}

#[test]
fn a_private_message_is_filed_under_the_sender_not_under_us() {
    let mut h = Harness::new();
    h.feed(":bob!u@h PRIVMSG me :psst");
    assert_eq!(h.conversation("bob").log.len(), 1);
    assert!(
        h.model.conversation(&h.isupport.fold("me")).is_none(),
        "a conversation named after ourselves would be nobody"
    );
}

#[test]
fn our_own_private_message_is_filed_under_who_we_sent_it_to() {
    let mut h = Harness::new();
    h.feed(":me!u@h PRIVMSG bob :hi there");
    let message = h.conversation("bob").log.last().expect("a message");
    assert!(message.own);
    assert_eq!(message.text, "hi there");
}

#[test]
fn joining_creates_the_channel_and_others_joining_add_members() {
    let mut h = Harness::new();
    assert_eq!(
        h.feed(":me!u@h JOIN #obby"),
        [Change::Joined {
            channel: "#obby".to_string()
        }]
    );
    h.feed(":bob!u@h JOIN #obby");
    assert_eq!(h.channel("#obby").members.len(), 1);
    assert_eq!(h.person("bob").nick.as_str(), "bob");
}

#[test]
fn extended_join_carries_the_account_without_a_who() {
    let mut h = Harness::new().joined("#obby");
    h.feed(":bob!u@h JOIN #obby alice :Bob");
    assert_eq!(h.person("bob").account.as_deref(), Some("alice"));
}

#[test]
fn an_unauthenticated_join_records_no_account() {
    let mut h = Harness::new().joined("#obby");
    h.feed(":bob!u@h JOIN #obby * :Bob");
    assert_eq!(
        h.person("bob").account,
        None,
        "a star means logged in as nobody"
    );
}

#[test]
fn leaving_forgets_the_channel_but_someone_else_leaving_does_not() {
    let mut h = Harness::new().joined("#obby");
    h.feed(":bob!u@h JOIN #obby");
    h.feed(":bob!u@h PART #obby :bye");
    assert!(h.channel("#obby").members.is_empty());

    h.feed(":me!u@h PART #obby :bye");
    assert!(h.model.channel(&h.isupport.fold("#obby")).is_none());
}

#[test]
fn being_kicked_forgets_the_channel() {
    let mut h = Harness::new().joined("#obby");
    h.feed(":bob!u@h JOIN #obby");
    h.feed(":op!u@h KICK #obby bob :rude");
    assert!(h.channel("#obby").members.is_empty());

    h.feed(":op!u@h KICK #obby me :rude");
    assert!(h.model.channel(&h.isupport.fold("#obby")).is_none());
}

#[test]
fn session_a_quit_reports_every_channel_they_were_in() {
    let mut h = Harness::new().joined("#a").joined("#b");
    for name in ["#a", "#b"] {
        h.feed(&format!(":bob!u@h JOIN {name}"));
    }
    let changes = h.feed(":bob!u@h QUIT :gone");
    assert_eq!(changes.len(), 2);
    assert!(h.channel("#a").members.is_empty());
    assert!(h.channel("#b").members.is_empty());
}

#[test]
fn a_rename_follows_the_servers_casemapping() {
    let mut h = Harness::new().joined("#obby");
    h.feed(":[bob]!u@h JOIN #obby");
    h.feed(":[bob]!u@h NICK {BOB}");
    let channel = h.channel("#obby");
    assert_eq!(
        channel.members.len(),
        1,
        "rfc1459 folds braces onto brackets, so this is one person"
    );
    assert!(channel.members.contains_key(&h.isupport.fold("{bob}")));
    assert_eq!(h.person("{bob}").nick, "{BOB}");
}

#[test]
fn names_splits_prefixes_and_hostmasks() {
    let mut h = Harness::new().joined("#obby");
    h.feed(":s 353 me = #obby :~&@alice +bob carol!u@host");
    let channel = h.channel("#obby");
    assert_eq!(channel.members.len(), 3);
    assert_eq!(
        channel
            .members
            .get(&h.isupport.fold("alice"))
            .map(|m| m.prefixes.as_str()),
        Some("~&@")
    );
    assert_eq!(
        channel
            .members
            .get(&h.isupport.fold("bob"))
            .map(|m| m.prefixes.as_str()),
        Some("+")
    );
    assert!(
        channel.members.contains_key(&h.isupport.fold("carol")),
        "userhost-in-names must not become part of the nick"
    );
}

#[test]
fn a_membership_mode_moves_a_prefix_and_a_channel_mode_does_not() {
    let mut h = Harness::new().joined("#obby");
    h.feed(":bob!u@h JOIN #obby");
    h.feed(":op!u@h MODE #obby +o bob");
    assert_eq!(
        h.channel("#obby")
            .members
            .get(&h.isupport.fold("bob"))
            .map(|m| m.prefixes.as_str()),
        Some("@")
    );

    h.feed(":op!u@h MODE #obby +b nuisance!*@*");
    assert_eq!(
        h.channel("#obby")
            .members
            .get(&h.isupport.fold("bob"))
            .map(|m| m.prefixes.as_str()),
        Some("@"),
        "a ban must not consume the nick argument of a membership mode"
    );
    assert!(h.channel("#obby").modes.contains_key(&'b'));

    h.feed(":op!u@h MODE #obby -o bob");
    assert_eq!(
        h.channel("#obby")
            .members
            .get(&h.isupport.fold("bob"))
            .map(|m| m.prefixes.as_str()),
        Some("")
    );
}

#[test]
fn our_own_user_modes_accumulate() {
    let mut h = Harness::new();
    h.feed(":s MODE me +iw");
    assert_eq!(h.model.me.modes, "iw");
    h.feed(":s MODE me -i");
    assert_eq!(h.model.me.modes, "w");
}

#[test]
fn the_topic_arrives_from_a_command_or_a_numeric() {
    let mut h = Harness::new().joined("#obby");
    h.feed(":s 332 me #obby :from the numeric");
    assert_eq!(
        h.channel("#obby").topic.as_deref(),
        Some("from the numeric")
    );
    h.feed(":bob!u@h TOPIC #obby :from the command");
    assert_eq!(
        h.channel("#obby").topic.as_deref(),
        Some("from the command")
    );
    assert_eq!(h.channel("#obby").topic_by.as_deref(), Some("bob"));
}

#[test]
fn clearing_the_topic_leaves_none_rather_than_an_empty_string() {
    let mut h = Harness::new().joined("#obby");
    h.feed(":bob!u@h TOPIC #obby :something");
    h.feed(":bob!u@h TOPIC #obby :");
    assert_eq!(h.channel("#obby").topic, None);
}

#[test]
fn server_time_decides_when_a_message_happened() {
    let mut h = Harness::new().joined("#obby");
    h.feed("@time=2026-09-06T10:00:00.000Z :bob!u@h PRIVMSG #obby :stamped");
    let message = h.channel("#obby").log.last().expect("a message");
    assert_eq!(message.key.time_ms, 1_788_688_800_000);
}

#[test]
fn an_unstamped_line_reuses_the_latest_instant_seen() {
    let mut h = Harness::new().joined("#obby");
    h.feed("@time=2026-09-06T10:00:00.000Z :bob!u@h PRIVMSG #obby :stamped");
    h.feed(":bob!u@h PRIVMSG #obby :unstamped");
    let messages: Vec<u64> = h
        .channel("#obby")
        .log
        .iter()
        .into_iter()
        .map(|m| m.key.time_ms)
        .collect();
    assert_eq!(
        messages,
        [1_788_688_800_000, 1_788_688_800_000],
        "an unstamped line must not sort back before the stamped ones"
    );
}

#[test]
fn a_ctcp_keeps_its_command_and_loses_its_wrapper() {
    let mut h = Harness::new().joined("#obby");
    h.feed(":bob!u@h PRIVMSG #obby :\u{1}ACTION waves\u{1}");
    let message = h.channel("#obby").log.last().expect("a message");
    assert_eq!(
        message.kind,
        MessageKind::Ctcp {
            command: "ACTION".to_string()
        }
    );
    assert_eq!(message.text, "waves");
}

#[test]
fn both_spellings_of_the_reply_tag_are_accepted() {
    let mut h = Harness::new().joined("#obby");
    h.feed("@+reply=abc :bob!u@h PRIVMSG #obby :one");
    h.feed("@+draft/reply=def :bob!u@h PRIVMSG #obby :two");
    let replies: Vec<Option<&str>> = h
        .channel("#obby")
        .log
        .iter()
        .into_iter()
        .map(|m| m.reply_to.as_deref())
        .collect();
    assert_eq!(
        replies,
        [Some("abc"), Some("def")],
        "the server sends one spelling from filehost and the other from pushbot"
    );
}

#[test]
fn a_repeated_msgid_is_only_stored_once() {
    let mut h = Harness::new().joined("#obby");
    h.feed("@msgid=x1 :bob!u@h PRIVMSG #obby :hello");
    h.feed("@msgid=x1 :bob!u@h PRIVMSG #obby :hello");
    assert_eq!(h.channel("#obby").log.len(), 1);
}

#[test]
fn a_mention_needs_a_whole_nick_not_a_substring() {
    let map = Casemapping::Rfc1459;
    assert!(mentions(map, "hey me, look", "me"));
    assert!(mentions(map, "me: look", "me"));
    assert!(mentions(map, "me", "me"));
    assert!(
        !mentions(map, "spameda", "me"),
        "a nick inside a word is not a mention"
    );
    assert!(!mentions(map, "me-too", "me"), "a dash is a nick character");
    assert!(!mentions(map, "", "me"));
    assert!(!mentions(map, "anything", ""));
}

#[test]
fn a_mention_folds_the_way_the_server_does() {
    assert!(
        mentions(Casemapping::Rfc1459, "hey {NICK} there", "[nick]"),
        "rfc1459 folds braces onto brackets, so this addresses us"
    );
    assert!(
        !mentions(Casemapping::Ascii, "hey {NICK} there", "[nick]"),
        "an ascii server treats them as different people"
    );
    assert!(mentions(Casemapping::Ascii, "hey NICK there", "nick"));
}

#[test]
fn a_channel_message_counts_as_unread_and_a_mention_only_when_it_names_us() {
    let mut h = Harness::new().joined("#obby");
    h.feed(":bob!u@h PRIVMSG #obby :morning all");
    assert_eq!(
        (h.channel("#obby").unread, h.channel("#obby").mentions),
        (1, 0)
    );

    h.feed(":bob!u@h PRIVMSG #obby :me: got a second?");
    assert_eq!(
        (h.channel("#obby").unread, h.channel("#obby").mentions),
        (2, 1)
    );
}

#[test]
fn our_own_words_and_replayed_history_are_never_unread() {
    let mut h = Harness::new().joined("#obby");
    h.feed(":me!u@h PRIVMSG #obby :me talking about me");
    assert_eq!(
        (h.channel("#obby").unread, h.channel("#obby").mentions),
        (0, 0)
    );

    h.historical = true;
    h.feed(":bob!u@h PRIVMSG #obby :me, an old message");
    assert_eq!(
        (h.channel("#obby").unread, h.channel("#obby").mentions),
        (0, 0),
        "scrolling back must not light up the unread badge"
    );
}

#[test]
fn every_private_message_is_addressed_to_us_by_existing() {
    let mut h = Harness::new();
    h.feed(":bob!u@h PRIVMSG me :no nick needed");
    assert_eq!(h.conversation("bob").unread, 1);
}

#[test]
fn the_server_confirming_a_read_marker_clears_what_it_covers() {
    let mut h = Harness::new().joined("#obby");
    h.feed(":bob!u@h PRIVMSG #obby :me: hello");
    assert_eq!(
        (h.channel("#obby").unread, h.channel("#obby").mentions),
        (1, 1)
    );

    let changes = h.feed(":s MARKREAD #obby timestamp=2026-09-06T10:00:00.000Z");
    assert_eq!(
        changes,
        [Change::ReadMarker {
            target: "#obby".to_string()
        }]
    );
    assert_eq!(
        (h.channel("#obby").unread, h.channel("#obby").mentions),
        (0, 0)
    );
    assert_eq!(
        h.channel("#obby").read_marker.as_deref(),
        Some("2026-09-06T10:00:00.000Z")
    );
}

#[test]
fn a_reaction_attaches_to_the_message_rather_than_becoming_one() {
    let mut h = Harness::new().joined("#obby");
    h.feed("@msgid=m1 :bob!u@h PRIVMSG #obby :something");
    let changes = h.feed("@+draft/react=👍;+draft/reply=m1 :carol!u@h TAGMSG #obby");
    assert_eq!(
        changes,
        [Change::Reacted {
            target: "#obby".to_string(),
            msgid: "m1".to_string()
        }]
    );
    assert_eq!(
        h.channel("#obby").log.len(),
        1,
        "a reaction is not a message in the log"
    );
    let message = h.channel("#obby").log.get("m1").expect("the message");
    assert_eq!(
        message.reactions.get(&"👍".to_string()).map(Vec::as_slice),
        Some(&["carol".to_string()][..])
    );
}

#[test]
fn reacting_twice_counts_once_and_taking_it_back_removes_it() {
    let mut h = Harness::new().joined("#obby");
    h.feed("@msgid=m1 :bob!u@h PRIVMSG #obby :something");
    h.feed("@+draft/react=👍;+reply=m1 :carol!u@h TAGMSG #obby");
    h.feed("@+draft/react=👍;+reply=m1 :carol!u@h TAGMSG #obby");
    assert_eq!(
        h.channel("#obby")
            .log
            .get("m1")
            .expect("message")
            .reactions
            .get(&"👍".to_string())
            .map(Vec::len),
        Some(1)
    );

    h.feed("@+draft/unreact=👍;+reply=m1 :carol!u@h TAGMSG #obby");
    assert!(
        h.channel("#obby")
            .log
            .get("m1")
            .expect("message")
            .reactions
            .is_empty(),
        "the last reactor leaving takes the emoji with them"
    );
}

#[test]
fn a_redaction_marks_the_message_and_keeps_what_it_said() {
    let mut h = Harness::new().joined("#obby");
    h.feed("@msgid=m1 :bob!u@h PRIVMSG #obby :regrettable");
    let changes = h.feed(":op!u@h REDACT #obby m1 :spam");
    assert_eq!(
        changes,
        [Change::Redacted {
            target: "#obby".to_string(),
            msgid: "m1".to_string()
        }]
    );
    let message = h.channel("#obby").log.get("m1").expect("the message stays");
    assert!(message.redacted);
    assert_eq!(
        message.text, "regrettable",
        "discarding the content leaves no way to show who deleted what"
    );
}

#[test]
fn going_away_shows_on_every_member_list_they_are_in() {
    let mut h = Harness::new().joined("#a").joined("#b");
    h.feed(":bob!u@h JOIN #a");
    h.feed(":bob!u@h JOIN #b");
    h.feed(":bob!u@h AWAY :back later");
    for name in ["#a", "#b"] {
        assert!(
            h.channel(name)
                .members
                .contains_key(&h.isupport.fold("bob"))
        );
    }
    assert_eq!(
        h.person("bob").away.as_deref(),
        Some("back later"),
        "away is recorded once, not once per channel"
    );

    h.feed(":bob!u@h AWAY");
    assert_eq!(
        h.model
            .person(&h.isupport.fold("bob"))
            .and_then(|p| p.away.as_deref()),
        None
    );
}

#[test]
fn logging_into_an_account_updates_everywhere_they_are() {
    let mut h = Harness::new().joined("#obby");
    h.feed(":bob!u@h JOIN #obby");
    h.feed(":bob!u@h ACCOUNT alice");
    assert_eq!(
        h.model
            .person(&h.isupport.fold("bob"))
            .and_then(|p| p.account.as_deref()),
        Some("alice")
    );

    h.feed(":bob!u@h ACCOUNT *");
    assert_eq!(
        h.model
            .person(&h.isupport.fold("bob"))
            .and_then(|p| p.account.as_deref()),
        None,
        "a star means logged out"
    );
}

#[test]
fn our_own_away_and_account_land_on_us() {
    let mut h = Harness::new();
    h.feed(":me!u@h AWAY :lunch");
    assert_eq!(h.model.me.away.as_deref(), Some("lunch"));
    h.feed(":me!u@h ACCOUNT myaccount");
    assert_eq!(h.model.me.account.as_deref(), Some("myaccount"));
}

#[test]
fn a_tagmsg_carrying_nothing_we_model_is_still_a_message() {
    let mut h = Harness::new().joined("#obby");
    h.feed("@+example.org/thing=1 :bob!u@h TAGMSG #obby");
    assert_eq!(h.channel("#obby").log.len(), 1);
}

#[test]
fn metadata_about_a_person_is_held_once_for_them() {
    let mut h = Harness::new().joined("#a").joined("#b");
    h.feed(":bob!u@h JOIN #a");
    h.feed(":bob!u@h JOIN #b");
    let changes = h.feed(":s METADATA bob display-name * :Bobby Tables");
    assert_eq!(
        changes,
        [Change::Metadata {
            target: "bob".to_string(),
            key: "display-name".to_string()
        }]
    );
    assert_eq!(
        h.person("bob")
            .metadata
            .get(&"display-name".to_string())
            .map(String::as_str),
        Some("Bobby Tables"),
        "one person, one record, however many channels we share"
    );
}

#[test]
fn a_key_with_no_value_clears_it() {
    let mut h = Harness::new();
    h.feed(":s METADATA bob avatar * :https://example.org/a.png");
    assert!(h.person("bob").metadata.contains_key(&"avatar".to_string()));
    h.feed(":s METADATA bob avatar *");
    assert!(
        !h.person("bob").metadata.contains_key(&"avatar".to_string()),
        "a push with no value is how the server deletes a key"
    );
}

#[test]
fn the_not_set_reply_clears_a_key_too() {
    let mut h = Harness::new();
    h.feed(":s 761 me bob color * :#ff0000");
    assert_eq!(
        h.person("bob").metadata.get(&"color".to_string()).map(String::as_str),
        Some("#ff0000")
    );
    h.feed(":s 766 me bob color :no matching key");
    assert!(!h.person("bob").metadata.contains_key(&"color".to_string()));
}

#[test]
fn a_numeric_reply_reads_past_our_own_nick() {
    let mut h = Harness::new();
    h.feed(":s 761 me bob display-name * :Bobby");
    assert_eq!(
        h.person("bob")
            .metadata
            .get(&"display-name".to_string())
            .map(String::as_str),
        Some("Bobby"),
        "the numeric puts our nick first, so the target is one parameter along"
    );
}

#[test]
fn channel_metadata_lands_on_the_channel_not_on_a_person() {
    let mut h = Harness::new().joined("#obby");
    h.feed(":s METADATA #obby avatar * :https://example.org/c.png");
    assert_eq!(
        h.channel("#obby")
            .metadata
            .get(&"avatar".to_string())
            .map(String::as_str),
        Some("https://example.org/c.png")
    );
    assert!(h.model.person(&h.isupport.fold("#obby")).is_none());
}

#[test]
fn a_star_target_means_us() {
    let mut h = Harness::new();
    h.feed(":s METADATA * display-name * :Me Myself");
    assert_eq!(
        h.model.me.metadata.get(&"display-name".to_string()).map(String::as_str),
        Some("Me Myself")
    );
}

#[test]
fn a_link_preview_attaches_to_its_message_instead_of_becoming_one() {
    let mut h = Harness::new().joined("#obby");
    h.feed("@msgid=m1 :bob!u@h PRIVMSG #obby :look at https://example.org");
    h.feed(
        "@+reply=m1;obsidianirc/link-preview-title=Example;obsidianirc/link-preview-snippet=A\\spage :s TAGMSG #obby",
    );
    assert_eq!(
        h.channel("#obby").log.len(),
        1,
        "the preview arrives long after the message, and must not become a second one"
    );
    let preview = h
        .channel("#obby")
        .log
        .get("m1")
        .expect("the message")
        .link_preview
        .as_ref()
        .expect("a preview");
    assert_eq!(preview.title, "Example");
    assert_eq!(preview.snippet.as_deref(), Some("A page"));
}

#[test]
fn a_preview_for_a_message_we_never_saw_is_dropped() {
    let mut h = Harness::new().joined("#obby");
    h.feed("@+reply=gone;obsidianirc/link-preview-title=Example :s TAGMSG #obby");
    assert_eq!(
        h.channel("#obby").log.len(),
        0,
        "there is nothing to attach it to, and it is not a message of its own"
    );
}

#[test]
fn a_who_reply_fills_in_who_someone_actually_is() {
    let mut h = Harness::new().joined("#obby");
    h.feed(":s 352 me #obby ident host.example irc.example bob H@ :0 Bob Smith");
    let person = h.person("bob");
    assert_eq!(person.username.as_deref(), Some("ident"));
    assert_eq!(person.host.as_deref(), Some("host.example"));
    assert_eq!(person.realname.as_deref(), Some("Bob Smith"));
    assert_eq!(person.away, None, "H means here");
    assert_eq!(
        h.channel("#obby")
            .members
            .get(&h.isupport.fold("bob"))
            .map(|m| m.prefixes.as_str()),
        Some("@")
    );
}

#[test]
fn a_plain_who_never_signs_anybody_out() {
    let mut h = Harness::new().joined("#obby");
    h.feed(":bob!u@h JOIN #obby alice_acct :Bob");
    assert_eq!(h.person("bob").account.as_deref(), Some("alice_acct"));

    h.feed(":s 352 me #obby ident host.example irc.example bob H :0 Bob");
    assert_eq!(
        h.person("bob").account.as_deref(),
        Some("alice_acct"),
        "a plain WHO carries no account field, which is not the same as an empty one"
    );
}

#[test]
fn a_whox_reply_carries_the_account() {
    let mut h = Harness::new().joined("#obby");
    h.feed(":s 354 me 332 #obby ident host.example bob H+ alice_acct :Bob Smith");
    let person = h.person("bob");
    assert_eq!(person.account.as_deref(), Some("alice_acct"));
    assert_eq!(person.realname.as_deref(), Some("Bob Smith"));
    assert_eq!(
        h.channel("#obby")
            .members
            .get(&h.isupport.fold("bob"))
            .map(|m| m.prefixes.as_str()),
        Some("+")
    );
}

#[test]
fn a_whox_reply_can_sign_somebody_out() {
    let mut h = Harness::new().joined("#obby");
    h.feed(":s 354 me 332 #obby ident host bob H acct :Bob");
    assert!(h.person("bob").account.is_some());
    h.feed(":s 354 me 332 #obby ident host bob H 0 :Bob");
    assert_eq!(
        h.person("bob").account,
        None,
        "a zero in the account field is how WHOX spells logged out"
    );
}

#[test]
fn a_whox_reply_to_somebody_elses_request_is_ignored() {
    let mut h = Harness::new().joined("#obby");
    h.feed(":s 354 me 999 #obby ident host bob H acct :Bob");
    assert!(
        h.model.person(&h.isupport.fold("bob")).is_none(),
        "the token is what tells our reply apart from another client's"
    );
}

#[test]
fn who_reports_away_and_operator_and_bot_flags() {
    let mut h = Harness::new().joined("#obby");
    h.feed(":s 352 me #obby ident host irc bob G*B@ :0 Bob");
    let person = h.person("bob");
    assert!(person.away.is_some(), "G means gone");
    assert!(person.operator);
    assert!(person.bot);
}

#[test]
fn coming_back_from_away_clears_it_but_going_away_keeps_a_known_reason() {
    let mut h = Harness::new().joined("#obby");
    h.feed(":bob!u@h AWAY :at lunch");
    h.feed(":s 352 me #obby ident host irc bob G :0 Bob");
    assert_eq!(
        h.person("bob").away.as_deref(),
        Some("at lunch"),
        "WHO says only that they are away, so a reason we already have survives"
    );
    h.feed(":s 352 me #obby ident host irc bob H :0 Bob");
    assert_eq!(h.person("bob").away, None);
}

#[test]
fn a_named_mode_is_recorded_by_its_name_not_its_letter() {
    let mut h = Harness::new().joined("#obby");
    let changes = h.feed(":s PROP #obby +obsidianirc/censor +obsidianirc/history=30d");
    assert_eq!(
        changes,
        [Change::ModesChanged {
            channel: "#obby".to_string()
        }]
    );
    let modes = &h.channel("#obby").named_modes;
    assert_eq!(modes.get(&"obsidianirc/censor".to_string()), Some(&None));
    assert_eq!(
        modes.get(&"obsidianirc/history".to_string()),
        Some(&Some("30d".to_string())),
        "a letter means nothing without the server saying what it does; the name is stable"
    );
}

#[test]
fn removing_a_named_mode_ignores_the_parameter_it_carries() {
    let mut h = Harness::new().joined("#obby");
    h.feed(":s PROP #obby +obsidianirc/history=30d");
    h.feed(":s PROP #obby -obsidianirc/history=30d");
    assert!(
        !h.channel("#obby")
            .named_modes
            .contains_key(&"obsidianirc/history".to_string())
    );
}

#[test]
fn a_prop_listing_reports_state_rather_than_a_change() {
    let mut h = Harness::new().joined("#obby");
    h.feed(":s 961 me #obby obsidianirc/censor obsidianirc/history=7d");
    let modes = &h.channel("#obby").named_modes;
    assert_eq!(
        modes.len(),
        2,
        "a listing has no signs, so every entry is set"
    );
    assert_eq!(
        modes.get(&"obsidianirc/history".to_string()),
        Some(&Some("7d".to_string()))
    );
}

#[test]
fn a_prop_for_a_channel_we_never_joined_invents_nothing() {
    let mut h = Harness::new();
    assert!(h.feed(":s PROP #ghost +obsidianirc/censor").is_empty());
    assert_eq!(h.model.channels().len(), 0);
}

#[test]
fn the_same_change_arriving_as_mode_and_as_prop_is_harmless() {
    let mut h = Harness::new().joined("#obby");
    // the server relays every legacy MODE as an equivalent PROP to capability holders
    h.feed(":op!u@h MODE #obby +t");
    h.feed(":s PROP #obby +topiclock");
    assert!(h.channel("#obby").modes.contains_key(&'t'));
    assert!(h.channel("#obby").named_modes.contains_key(&"topiclock".to_string()));
}

#[test]
fn a_notice_is_not_an_ordinary_message() {
    let mut h = Harness::new().joined("#obby");
    h.feed(":bob!u@h NOTICE #obby :careful");
    assert_eq!(
        h.channel("#obby").log.last().map(|m| m.kind.clone()),
        Some(MessageKind::Notice)
    );
}

#[test]
fn a_line_about_a_channel_we_are_not_in_changes_nothing() {
    let mut h = Harness::new();
    for raw in [
        ":s 353 me = #ghost :@alice",
        ":s 332 me #ghost :topic",
        ":bob!u@h JOIN #ghost",
        ":op!u@h MODE #ghost +o bob",
        ":s MARKREAD #ghost timestamp=x",
        ":op!u@h REDACT #ghost m1",
    ] {
        h.feed(raw);
    }
    assert!(h.model.channels().is_empty());
}

#[test]
fn an_unknown_command_changes_nothing() {
    let mut h = Harness::new().joined("#obby");
    assert!(h.feed(":s 999 me :what is this").is_empty());
}

#[test]
fn a_nick_with_dashes_is_named_as_a_whole() {
    let map = Casemapping::Rfc1459;
    assert!(mentions(map, "ask me-too about it", "me-too"));
    assert!(mentions(map, "me2 me", "me"));
    assert!(!mentions(map, "m\u{e9}me", "me"));
    assert!(mentions(map, "\u{2014}me\u{2014}", "me"));
}

#[test]
fn a_status_message_is_filed_in_its_channel() {
    let mut h = Harness::new().joined("#obby");
    h.isupport.apply("STATUSMSG=@+");
    let changes = h.feed(":bob!u@h PRIVMSG @#obby :ops only");
    assert!(matches!(changes.first(), Some(Change::Message { target, .. }) if target == "#obby"));
    assert_eq!(h.channel("#obby").log.len(), 1);
}

#[test]
fn what_was_said_survives_what_happens_around_it() {
    let mut h = Harness::new().joined("#obby");
    h.feed("@msgid=m1 :bob!u@h PRIVMSG #obby :hello");
    for raw in [
        ":bob!u@h TOPIC #obby :t",
        ":op!u@h MODE #obby +t",
        ":bob!u@h NICK rob",
        ":rob!u@h QUIT :bye",
        ":me!u@h JOIN #obby",
    ] {
        h.feed(raw);
    }
    let message = h.channel("#obby").log.get("m1").expect("the message");
    assert_eq!((message.sender.as_str(), message.text.as_str()), ("bob", "hello"));
}

#[test]
fn metadata_of_a_channel_we_are_not_in_is_dropped() {
    let mut h = Harness::new();
    assert!(h.feed(":s METADATA #ghost avatar * :x").is_empty());
}

#[test]
fn a_reaction_to_a_message_we_do_not_hold_is_still_no_message() {
    let mut h = Harness::new().joined("#obby");
    assert!(h.feed("@+draft/react=x;+reply=gone :carol!u@h TAGMSG #obby").is_empty());
    assert_eq!(h.channel("#obby").log.len(), 0);

    h.feed("@+draft/react=x :carol!u@h TAGMSG #obby");
    assert_eq!(h.channel("#obby").log.len(), 1, "one that answers nothing is an ordinary TAGMSG");
}

#[test]
fn a_marker_older_than_every_message_clears_nothing() {
    let mut h = Harness::new().joined("#obby");
    h.feed("@time=2026-09-06T10:00:00.000Z :bob!u@h PRIVMSG #obby :hello me");
    let changes = h.feed(":s MARKREAD #obby timestamp=2020-01-01T00:00:00.000Z");
    assert_eq!(changes, [Change::ReadMarker { target: "#obby".to_string() }]);
    let channel = h.channel("#obby");
    assert_eq!(channel.read_marker.as_deref(), Some("2020-01-01T00:00:00.000Z"));
    assert_eq!((channel.unread, channel.mentions), (1, 1));
}

#[test]
fn a_marker_between_messages_leaves_what_came_after_it() {
    let mut h = Harness::new().joined("#obby");
    h.feed("@time=2026-09-06T10:00:00.000Z :bob!u@h PRIVMSG #obby :hello me");
    h.feed("@time=2026-09-06T10:00:01.000Z :bob!u@h PRIVMSG #obby :still there?");
    h.feed("@time=2026-09-06T10:00:02.000Z :me!u@h PRIVMSG #obby :yes");
    h.feed("@time=2026-09-06T10:00:03.000Z :bob!u@h PRIVMSG #obby :good");
    assert_eq!(h.channel("#obby").unread, 3);

    h.feed(":s MARKREAD #obby timestamp=2026-09-06T10:00:00.000Z");
    assert_eq!((h.channel("#obby").unread, h.channel("#obby").mentions), (2, 0));

    h.feed(":s MARKREAD #obby timestamp=2026-09-06T10:00:03.000Z");
    assert_eq!(h.channel("#obby").unread, 0);

    h.feed(":s MARKREAD #obby timestamp=2026-09-06T10:00:01.000Z");
    assert_eq!(h.channel("#obby").unread, 0, "what was read is not unread again");
}

#[test]
fn a_marker_that_is_no_time_clears_nothing() {
    let mut h = Harness::new().joined("#obby");
    h.feed(":bob!u@h PRIVMSG #obby :hello");
    h.feed(":s MARKREAD #obby *");
    assert_eq!(h.channel("#obby").read_marker.as_deref(), Some("*"));
    assert_eq!(h.channel("#obby").unread, 1);
}

#[test]
fn a_marker_clears_a_conversation_up_to_itself() {
    let mut h = Harness::new();
    h.feed("@time=2026-09-06T10:00:00.000Z :bob!u@h PRIVMSG me :one");
    h.feed("@time=2026-09-06T10:00:05.000Z :bob!u@h PRIVMSG me :two");
    h.feed(":s MARKREAD bob timestamp=2026-09-06T10:00:00.000Z");
    assert_eq!(h.conversation("bob").unread, 1);
}

#[test]
fn the_target_of_a_metadata_line_may_stand_anywhere() {
    let mut h = Harness::new().joined("#obby");
    let line = Line::parse(":s 761 a b #obby color * red").unwrap();
    let changes = metadata(&mut h.model, &h.isupport, &line, 2);
    assert_eq!(
        changes,
        vec![Change::Metadata { target: "#obby".to_string(), key: "color".to_string() }],
    );
    assert!(metadata(&mut h.model, &h.isupport, &line, usize::MAX - 3).is_empty());
}
