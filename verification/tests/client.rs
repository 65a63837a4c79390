use obby_client::client::Client;
use obby_client::config::{Config, Phase};
use obby_client::event::Event;
use obby_client::sasl::{Credentials, SaslFailure};
use obby_client::session::Change;
use obby_client::wire::Casemapping;

fn drain(client: &mut Client) -> String {
    let mut out = String::new();
    while let Some(bytes) = client.poll_transmit() {
        out.push_str(&String::from_utf8_lossy(&bytes));
    }
    out
}

fn events(client: &mut Client) -> Vec<Event> {
    let mut out = Vec::new();
    while let Some(event) = client.poll_event() {
        out.push(event);
    }
    out
}

#[test]
fn registration_starts_with_cap_ls_then_nick_and_user() {
    let mut client = Client::new(Config::new("me"));
    client.connected();
    assert_eq!(
        drain(&mut client),
        "CAP LS 302\r\nNICK me\r\nUSER me 0 * me\r\n"
    );
}

#[test]
fn a_password_precedes_nick() {
    let mut config = Config::new("me");
    config.password = Some("hunter2".to_string());
    let mut client = Client::new(config);
    client.connected();
    let sent = drain(&mut client);
    let pass = sent.find("PASS").expect("pass is sent");
    let nick = sent.find("NICK").expect("nick is sent");
    assert!(pass < nick);
}

#[test]
fn answers_ping_with_the_same_token() {
    let mut client = Client::new(Config::new("me"));
    client.handle_bytes(b"PING :abc123\r\n");
    assert_eq!(drain(&mut client), "PONG abc123\r\n");
}

#[test]
fn holds_a_partial_line_until_the_rest_arrives() {
    let mut client = Client::new(Config::new("me"));
    client.handle_bytes(b"PING :ab");
    assert_eq!(drain(&mut client), "");
    client.handle_bytes(b"c\r\n");
    assert_eq!(drain(&mut client), "PONG abc\r\n");
}

#[test]
fn survives_a_line_that_is_not_utf8() {
    let mut client = Client::new(Config::new("me"));
    client.handle_bytes(b"PING :\xff\xfe\r\n");
    assert!(drain(&mut client).starts_with("PONG"));
}

#[test]
fn does_not_end_negotiation_until_every_request_is_answered() {
    let mut client = Client::new(Config::new("me"));
    client.connected();
    drain(&mut client);

    client.handle_bytes(b":s CAP * LS :multi-prefix away-notify\r\n");
    let requested = drain(&mut client);
    assert!(requested.contains("CAP REQ multi-prefix"));
    assert!(requested.contains("CAP REQ away-notify"));
    assert_eq!(client.phase(), Phase::Negotiating);

    client.handle_bytes(b":s CAP * ACK :multi-prefix\r\n");
    assert_eq!(client.phase(), Phase::Negotiating);

    client.handle_bytes(b":s CAP * NAK :away-notify\r\n");
    assert_eq!(client.phase(), Phase::Registering);
    assert_eq!(drain(&mut client), "CAP END\r\n");
}

#[test]
fn waits_for_the_last_line_of_a_multiline_cap_ls() {
    let mut client = Client::new(Config::new("me"));
    client.connected();
    drain(&mut client);

    client.handle_bytes(b":s CAP * LS * :multi-prefix\r\n");
    assert_eq!(
        drain(&mut client),
        "",
        "a continuation must not trigger a request"
    );

    client.handle_bytes(b":s CAP * LS :away-notify\r\n");
    let requested = drain(&mut client);
    assert!(requested.contains("multi-prefix"));
    assert!(requested.contains("away-notify"));
}

#[test]
fn ends_negotiation_when_the_server_offers_nothing_we_want() {
    let mut client = Client::new(Config::new("me"));
    client.connected();
    drain(&mut client);
    client.handle_bytes(b":s CAP * LS :some-cap-we-do-not-know\r\n");
    assert_eq!(drain(&mut client), "CAP END\r\n");
}

#[test]
fn cap_new_requests_a_late_capability() {
    let mut client = Client::new(Config::new("me"));
    client.connected();
    drain(&mut client);
    client.handle_bytes(b":s CAP * LS :\r\n");
    drain(&mut client);
    client.handle_bytes(b":s CAP * NEW :away-notify\r\n");
    assert!(drain(&mut client).contains("CAP REQ away-notify"));
}

#[test]
fn takes_the_nick_the_server_gives_us() {
    let mut client = Client::new(Config::new("me"));
    client.handle_bytes(b":s 001 me_ :Welcome\r\n");
    assert_eq!(client.nick(), "me_");
    assert_eq!(client.phase(), Phase::Registered);
    assert_eq!(
        events(&mut client),
        [Event::Registered {
            nick: "me_".to_string()
        }]
    );
}

#[test]
fn reads_the_casemapping_from_isupport() {
    let mut client = Client::new(Config::new("me"));
    assert_eq!(client.casemapping(), Casemapping::Rfc1459);
    client.handle_bytes(
        b":s 005 me CASEMAPPING=ascii CHANTYPES=#^$ PREFIX=(qaohv)~&@%+ :are supported\r\n",
    );
    assert_eq!(client.casemapping(), Casemapping::Ascii);
    assert!(
        client.isupport().is_channel("^voice"),
        "obby voice channels arrive through CHANTYPES like any other"
    );
    assert_eq!(client.isupport().prefix().char_for_mode('h'), Some('%'));
    assert_eq!(
        events(&mut client)
            .into_iter()
            .map(|event| match event {
                Event::Isupport { token, value } => (token, value),
                other => panic!("expected only ISUPPORT events, got {other:?}"),
            })
            .collect::<Vec<_>>(),
        [
            ("CASEMAPPING".to_string(), Some("ascii".to_string())),
            ("CHANTYPES".to_string(), Some("#^$".to_string())),
            ("PREFIX".to_string(), Some("(qaohv)~&@%+".to_string())),
        ]
    );
}

#[test]
fn a_negated_isupport_token_restores_the_default() {
    let mut client = Client::new(Config::new("me"));
    client.handle_bytes(b":s 005 me CASEMAPPING=ascii :are supported\r\n");
    assert_eq!(client.casemapping(), Casemapping::Ascii);
    client.handle_bytes(b":s 005 me -CASEMAPPING :are supported\r\n");
    assert_eq!(client.casemapping(), Casemapping::Rfc1459);
}

fn with_sasl() -> Config {
    let mut config = Config::new("me");
    config.sasl = Some(Credentials::Plain {
        username: "alice".to_string(),
        password: "hunter2".to_string(),
    });
    config
}

/// Negotiate up to the point where only SASL is left outstanding.
fn negotiated(config: Config) -> Client {
    let mut client = Client::new(config);
    client.connected();
    drain(&mut client);
    client.handle_bytes(b":s CAP * LS :sasl=PLAIN,EXTERNAL\r\n");
    client.handle_bytes(b":s CAP * ACK :sasl\r\n");
    client
}

#[test]
fn authenticates_before_ending_negotiation() {
    let mut client = negotiated(with_sasl());
    let sent = drain(&mut client);
    assert!(sent.contains("AUTHENTICATE PLAIN"));
    assert!(
        !sent.contains("CAP END"),
        "CAP END during SASL makes the server abort with 906 and register us unauthenticated"
    );
    assert_eq!(client.phase(), Phase::Negotiating);

    client.handle_bytes(b":s AUTHENTICATE +\r\n");
    assert_eq!(
        drain(&mut client),
        "AUTHENTICATE AGFsaWNlAGh1bnRlcjI=\r\n",
        "the PLAIN response is authzid, authcid and password, null separated"
    );
    assert_eq!(
        client.phase(),
        Phase::Negotiating,
        "still waiting on a verdict"
    );

    client.handle_bytes(b":s 900 me me!u@h alice :You are now logged in\r\n");
    client.handle_bytes(b":s 903 me :SASL authentication successful\r\n");
    assert_eq!(drain(&mut client), "CAP END\r\n");
    assert_eq!(client.phase(), Phase::Registering);
}

#[test]
fn reports_the_account_it_logged_in_as() {
    let mut client = negotiated(with_sasl());
    client.handle_bytes(b":s AUTHENTICATE +\r\n");
    client.handle_bytes(b":s 900 me me!u@h alice :You are now logged in\r\n");
    client.handle_bytes(b":s 903 me :ok\r\n");
    assert_eq!(
        events(&mut client),
        [
            Event::CapAcknowledged {
                names: vec!["sasl".to_string()]
            },
            Event::LoggedIn {
                account: "alice".to_string()
            },
        ]
    );
}

#[test]
fn a_rejected_login_still_releases_registration() {
    let mut client = negotiated(with_sasl());
    client.handle_bytes(b":s AUTHENTICATE +\r\n");
    drain(&mut client);
    client.handle_bytes(b":s 904 me :SASL authentication failed\r\n");
    assert_eq!(drain(&mut client), "CAP END\r\n");
    assert_eq!(client.phase(), Phase::Registering);
    assert!(events(&mut client).contains(&Event::SaslFailed {
        reason: SaslFailure::Rejected
    }));
}

#[test]
fn skips_authentication_when_no_mechanism_is_shared() {
    let mut client = Client::new(with_sasl());
    client.connected();
    drain(&mut client);
    client.handle_bytes(b":s CAP * LS :sasl=SCRAM-SHA-256\r\n");
    client.handle_bytes(b":s CAP * ACK :sasl\r\n");
    let sent = drain(&mut client);
    assert!(!sent.contains("AUTHENTICATE"));
    assert!(sent.contains("CAP END"));
    assert!(events(&mut client).contains(&Event::SaslFailed {
        reason: SaslFailure::NoSharedMechanism
    }));
}

#[test]
fn does_not_authenticate_without_credentials() {
    let mut client = negotiated(Config::new("me"));
    let sent = drain(&mut client);
    assert!(!sent.contains("AUTHENTICATE"));
    assert!(sent.ends_with("CAP END\r\n"));
}

#[test]
fn walks_the_fallback_nicks_then_appends_underscores() {
    let mut config = Config::new("me");
    config.alt_nicks = vec!["me2".to_string(), "me3".to_string()];
    let mut client = Client::new(config);
    client.connected();
    drain(&mut client);

    client.handle_bytes(b":s 433 * me :Nickname is already in use\r\n");
    assert_eq!(drain(&mut client), "NICK me2\r\n");
    client.handle_bytes(b":s 433 * me2 :Nickname is already in use\r\n");
    assert_eq!(drain(&mut client), "NICK me3\r\n");
    client.handle_bytes(b":s 433 * me3 :Nickname is already in use\r\n");
    assert_eq!(drain(&mut client), "NICK me3_\r\n", "the list is exhausted");
    assert_eq!(client.nick(), "me3_");
}

#[test]
fn a_rename_refused_after_registration_is_the_hosts_problem() {
    let mut client = Client::new(Config::new("me"));
    client.handle_bytes(b":s 001 me :Welcome\r\n");
    events(&mut client);
    client.handle_bytes(b":s 433 me taken :Nickname is already in use\r\n");
    assert_eq!(
        drain(&mut client),
        "",
        "the engine did not ask for this rename"
    );
    assert!(matches!(client.poll_event(), Some(Event::Raw { .. })));
}

#[test]
fn surfaces_a_line_it_does_not_model() {
    let mut client = Client::new(Config::new("me"));
    client.handle_bytes(b":s 375 me :- message of the day -\r\n");
    let Some(Event::Raw { message }) = client.poll_event() else {
        panic!("an unmodelled line must still reach the host");
    };
    assert!(message.is("375"));
}

#[test]
fn a_message_reaches_the_model_through_the_whole_path() {
    let mut client = Client::new(Config::new("me"));
    client.handle_bytes(b":s 001 me :Welcome\r\n");
    client.handle_bytes(b":s 005 me CHANTYPES=# :are supported\r\n");
    client.handle_bytes(b":me!u@h JOIN #obby\r\n");
    client.handle_bytes(b"@msgid=x1 :bob!u@h PRIVMSG #obby :hello\r\n");

    let folded = client.isupport().fold("#obby");
    let channel = client.model().channel(&folded).expect("we joined it");
    assert_eq!(channel.log.len(), 1);
    assert_eq!(
        channel.log.get("x1").map(|m| m.text.as_str()),
        Some("hello")
    );
    assert!(events(&mut client).iter().any(|event| matches!(
        event,
        Event::Changed {
            change: Change::Message { .. }
        }
    )));
}

#[test]
fn registering_tells_the_model_who_we_are() {
    let mut client = Client::new(Config::new("me"));
    client.handle_bytes(b":s 001 me_ :Welcome\r\n");
    assert_eq!(
        client.model().me.nick,
        "me_",
        "the model has to agree with the connection about our own nick, or every own-message check is wrong"
    );
}

#[test]
fn bytes_may_come_in_any_pieces() {
    let stream = b":s 001 me :Welcome\r\n:me!u@h JOIN #a\r\nPING :x\r\n";
    let mut whole = Client::new(Config::new("me"));
    whole.handle_bytes(stream);
    let (told, written) = (events(&mut whole), drain(&mut whole));
    assert_eq!(told.len(), 2);
    for cut in 0..stream.len() {
        let mut client = Client::new(Config::new("me"));
        client.handle_bytes(&stream[..cut]);
        client.handle_bytes(&stream[cut..]);
        assert_eq!(events(&mut client), told);
        assert_eq!(drain(&mut client), written);
    }
}

#[test]
fn a_line_that_does_not_parse_is_counted() {
    let mut client = Client::new(Config::new("me"));
    client.handle_bytes(b":onlyasource\r\n");
    assert_eq!(client.dropped_lines(), 1);
    assert!(events(&mut client).is_empty());
}

#[test]
fn every_failure_of_authentication_has_its_reason() {
    for (numeric, reason) in [
        ("904", SaslFailure::Rejected),
        ("905", SaslFailure::TooLong),
        ("906", SaslFailure::Aborted),
        ("907", SaslFailure::AlreadyAuthenticated),
    ] {
        let mut client = negotiated(with_sasl());
        client.handle_bytes(format!(":s {numeric} me :no\r\n").as_bytes());
        assert!(events(&mut client).contains(&Event::SaslFailed { reason }));
    }
}

#[test]
fn a_challenge_that_is_no_base64_ends_the_exchange() {
    let mut client = negotiated(with_sasl());
    drain(&mut client);
    client.handle_challenge(None);
    assert_eq!(drain(&mut client), "CAP END\r\n");
    assert!(events(&mut client).contains(&Event::SaslFailed { reason: SaslFailure::Aborted }));
}

#[test]
fn joining_asks_who_is_there() {
    let mut client = Client::new(Config::new("me"));
    client.handle_bytes(b":s 001 me :Welcome\r\n:me!u@h JOIN #a\r\n");
    assert_eq!(drain(&mut client), "WHO #a\r\n");
    client.handle_bytes(b":s 005 me WHOX :are supported\r\n:me!u@h JOIN #b\r\n");
    assert_eq!(drain(&mut client), "WHO #b %tcuhnfar,332\r\n");
}

#[test]
fn the_allowed_commands_are_told() {
    let mut client = Client::new(Config::new("me"));
    client.handle_bytes(b":s CMDSLIST +JOIN +OPER\r\n:s CMDSLIST -OPER\r\n");
    assert_eq!(events(&mut client), [Event::CommandsChanged, Event::CommandsChanged]);
    assert_eq!(client.allowed_commands().iter(), ["JOIN"]);
}
