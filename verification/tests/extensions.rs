use obby_client::extensions::{is_privileged, Bot, BotCommand, Bots, Commands, Invitation, LinkPreview};
use obby_client::wire::Line;

fn line(raw: &str) -> Line {
    Line::parse(raw).expect("the test line should parse")
}

#[test]
fn a_preview_names_the_message_it_describes() {
    let (msgid, preview) = LinkPreview::parse(&line(
        "@+reply=m1;obsidianirc/link-preview-title=Example;obsidianirc/link-preview-snippet=A\\spage;obsidianirc/link-preview-meta=https://h/i.png :s TAGMSG #obby",
    ))
    .expect("a preview");
    assert_eq!(msgid, "m1");
    assert_eq!(preview.title, "Example");
    assert_eq!(preview.snippet.as_deref(), Some("A page"));
    assert_eq!(preview.image.as_deref(), Some("https://h/i.png"));
}

#[test]
fn a_preview_needs_only_a_title() {
    let (_, preview) = LinkPreview::parse(&line(
        "@+draft/reply=m1;obsidianirc/link-preview-title=Bare :s TAGMSG #obby",
    ))
    .expect("a preview");
    assert_eq!(preview.snippet, None);
    assert_eq!(preview.image, None);
}

#[test]
fn a_preview_with_nothing_to_attach_to_is_not_one() {
    assert!(
        LinkPreview::parse(&line(
            "@obsidianirc/link-preview-title=Orphan :s TAGMSG #obby"
        ))
        .is_none(),
        "without a reply tag there is no message to hang it on"
    );
    assert!(LinkPreview::parse(&line("@+reply=m1 :s TAGMSG #obby")).is_none());
}

#[test]
fn the_command_list_adds_and_removes_in_one_pass() {
    let mut commands = Commands::new();
    commands.apply(&line(":s CMDSLIST +JOIN +PART +OPER"));
    assert_eq!(commands.len(), 3);
    assert!(
        commands.contains("join"),
        "command names are case-insensitive"
    );

    commands.apply(&line(":s CMDSLIST -OPER +TOPIC"));
    assert!(!commands.contains("OPER"));
    assert!(commands.contains("TOPIC"));
    assert_eq!(commands.len(), 3);
}

#[test]
fn a_command_list_split_across_lines_accumulates() {
    let mut commands = Commands::new();
    commands.apply(&line(":s CMDSLIST +JOIN +PART"));
    commands.apply(&line(":s CMDSLIST +TOPIC"));
    assert_eq!(
        commands.len(),
        3,
        "a long list arrives as several lines in one batch"
    );
}

#[test]
fn a_created_invitation_reads_back() {
    let invitation = Invitation::parse_created(&line(
        ":s INVITELINK abc123 #obby :https://obby.example/i/abc123",
    ))
    .expect("an invitation");
    assert_eq!(invitation.share_id, "abc123");
    assert_eq!(invitation.channel.as_deref(), Some("#obby"));
    assert_eq!(invitation.url, "https://obby.example/i/abc123");
}

#[test]
fn a_star_means_the_invitation_is_to_the_network() {
    let invitation =
        Invitation::parse_created(&line(":s INVITELINK abc123 * :https://obby.example/i/abc"))
            .expect("an invitation");
    assert_eq!(invitation.channel, None);
}

#[test]
fn a_list_entry_carries_its_history() {
    let invitation = Invitation::parse_entry(&line(
        ":s INVITELINK ENTRY abc123 #obby 2026-09-06T10:00:00Z 4 https://obby.example/i/abc :for the team",
    ))
    .expect("an entry");
    assert_eq!(invitation.share_id, "abc123");
    assert_eq!(invitation.created.as_deref(), Some("2026-09-06T10:00:00Z"));
    assert_eq!(invitation.redeemed, 4);
    assert_eq!(invitation.description.as_deref(), Some("for the team"));
}

#[test]
fn an_unreadable_count_does_not_lose_the_invitation() {
    let invitation = Invitation::parse_entry(&line(
        ":s INVITELINK ENTRY abc123 * 2026-09-06T10:00:00Z lots https://obby.example/i/abc",
    ))
    .expect("an entry");
    assert_eq!(invitation.redeemed, 0);
    assert_eq!(invitation.url, "https://obby.example/i/abc");
}

#[test]
fn a_created_reply_is_not_mistaken_for_a_list_entry() {
    assert!(
        Invitation::parse_created(&line(":s INVITELINK ENTRY a * 2026 0 https://u")).is_none()
    );
    assert!(Invitation::parse_entry(&line(":s INVITELINK abc * :https://u")).is_none());
}

#[test]
fn a_self_registered_bot_cannot_claim_a_privileged_name() {
    let mut bots = Bots::new();
    bots.insert(
        "helper".to_string(),
        Bot {
            nick: "helper".to_string(),
            from_config: false,
            ..Bot::default()
        },
    );
    assert!(bots.set_commands(
        "helper",
        vec![
            BotCommand {
                name: "weather".to_string(),
                description: None
            },
            BotCommand {
                name: "IdentIfy".to_string(),
                description: None
            },
        ]
    ));
    let commands = &bots.get("helper").expect("the bot").commands;
    assert_eq!(commands.len(), 1);
    assert_eq!(commands[0].name, "weather");
}

#[test]
fn a_configured_bot_may_claim_one() {
    let mut bots = Bots::new();
    bots.insert(
        "services".to_string(),
        Bot {
            nick: "services".to_string(),
            from_config: true,
            ..Bot::default()
        },
    );
    bots.set_commands(
        "services",
        vec![BotCommand {
            name: "identify".to_string(),
            description: None
        }],
    );
    assert_eq!(bots.get("services").expect("the bot").commands.len(), 1);
}

#[test]
fn commands_from_a_nick_we_never_heard_of_are_refused() {
    let mut bots = Bots::new();
    assert!(
        !bots.set_commands("stranger", vec![]),
        "anyone could otherwise put entries in the command menu"
    );
    assert!(bots.is_empty());
}

#[test]
fn privileged_names_are_matched_regardless_of_case() {
    assert!(is_privileged("OPER"));
    assert!(is_privileged("NickServ"));
    assert!(!is_privileged("weather"));
}

#[test]
fn a_token_without_a_sign_changes_nothing() {
    let mut commands = Commands::default();
    assert!(commands.is_empty());
    commands.apply(&line(":s CMDSLIST +join part"));
    assert_eq!(commands.iter(), ["JOIN"]);
}

#[test]
fn bots_are_listed_by_key_and_can_be_forgotten() {
    let mut bots = Bots::default();
    for nick in ["zed", "ann"] {
        bots.insert(nick.to_string(), Bot { nick: nick.to_string(), ..Bot::default() });
    }
    let keys: Vec<&str> = bots.iter().into_iter().map(|(key, _)| key.as_str()).collect();
    assert_eq!(keys, ["ann", "zed"]);
    assert_eq!(bots.remove("ann").map(|bot| bot.nick), Some("ann".to_string()));
    assert_eq!(bots.len(), 1);
    assert!(bots.get("ann").is_none());
}

#[test]
fn a_bot_keeps_the_order_of_what_it_may_offer() {
    let mut bots = Bots::new();
    bots.insert("b".to_string(), Bot::default());
    let names = ["pass", "one", "LOGIN", "two"];
    let commands = names
        .iter()
        .map(|name| BotCommand { name: name.to_string(), ..BotCommand::default() })
        .collect();
    assert!(bots.set_commands("b", commands));
    let kept: Vec<&str> =
        bots.get("b").expect("the bot").commands.iter().map(|c| c.name.as_str()).collect();
    assert_eq!(kept, ["one", "two"]);
}
