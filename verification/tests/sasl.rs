use obby_client::sasl::{
    chunk_response, decode_challenge, encode_response, offers, Credentials, SaslState, CHUNK,
};

#[test]
fn plain_frames_the_response_with_null_separators() {
    let creds = Credentials::Plain {
        username: "alice".to_string(),
        password: "hunter2".to_string(),
    };
    assert_eq!(creds.mechanism(), "PLAIN");
    assert_eq!(creds.response(), b"\0alice\0hunter2");
}

#[test]
fn external_sends_an_empty_response() {
    assert_eq!(Credentials::External.mechanism(), "EXTERNAL");
    assert_eq!(encode_response(&Credentials::External.response()), ["+"]);
}

#[test]
fn a_short_response_is_one_line() {
    let lines = encode_response(b"\0alice\0hunter2");
    assert_eq!(lines.len(), 1);
    assert_eq!(
        decode_challenge(&lines[0]).as_deref(),
        Some(&b"\0alice\0hunter2"[..])
    );
}

#[test]
fn a_long_response_splits_at_four_hundred() {
    // 300 bytes encode to exactly 400 base64 characters, so one more byte spills to a second line
    let lines = encode_response(&[b'x'; 301]);
    assert_eq!(lines.len(), 2);
    assert_eq!(lines[0].len(), CHUNK);
    assert!(lines[1].len() < CHUNK);
}

#[test]
fn an_exact_multiple_gets_a_trailing_plus() {
    // without this the server cannot tell a final full chunk from a continuation
    let lines = encode_response(&[b'x'; 300]);
    assert_eq!(lines.len(), 2);
    assert_eq!(lines[0].len(), CHUNK);
    assert_eq!(lines[1], "+");
}

#[test]
fn the_chunks_rejoin_into_the_original() {
    let payload: Vec<u8> = (0..1000u32).map(|i| (i % 251) as u8).collect();
    let joined: String = encode_response(&payload)
        .into_iter()
        .filter(|line| line != "+")
        .collect();
    assert_eq!(decode_challenge(&joined).as_deref(), Some(&payload[..]));
}

#[test]
fn an_empty_challenge_is_a_plus() {
    assert_eq!(decode_challenge("+"), Some(Vec::new()));
    assert_eq!(decode_challenge("not base64!"), None);
}

#[test]
fn an_unadvertised_mechanism_list_is_not_a_refusal() {
    assert!(
        offers(None, "PLAIN"),
        "no list means the server did not say"
    );
    assert!(offers(Some(""), "PLAIN"));
    assert!(offers(Some("PLAIN,EXTERNAL"), "EXTERNAL"));
    assert!(
        offers(Some("plain"), "PLAIN"),
        "mechanism names are case-insensitive"
    );
    assert!(!offers(Some("SCRAM-SHA-256"), "PLAIN"));
}

#[test]
fn cap_end_waits_only_while_the_exchange_runs() {
    assert!(!SaslState::Idle.in_flight());
    assert!(SaslState::Offered.in_flight());
    assert!(SaslState::Responded.in_flight());
    assert!(
        SaslState::ScramChallenged.in_flight() && SaslState::ScramProved.in_flight(),
        "a challenge-response mechanism takes several rounds, and CAP END must wait for all of them"
    );
    assert!(!SaslState::Settled.in_flight());
}

#[test]
fn a_password_never_appears_in_a_debug_rendering() {
    let plain = Credentials::Plain {
        username: "alice".to_string(),
        password: "hunter2".to_string(),
    };
    let rendered = plain.redacted();
    assert!(!rendered.contains("hunter2"), "got: {rendered}");
    assert!(rendered.contains("alice"), "the username is not the secret");

    let scram = Credentials::Scram {
        username: "alice".to_string(),
        password: "hunter2".to_string(),
        nonce: "abc".to_string(),
    };
    assert!(!scram.redacted().contains("hunter2"));
}

#[test]
fn scram_is_a_challenge_response_mechanism_and_the_others_are_not() {
    let scram = Credentials::Scram {
        username: "alice".to_string(),
        password: "hunter2".to_string(),
        nonce: "abc".to_string(),
    };
    assert_eq!(scram.mechanism(), "SCRAM-SHA-256");
    assert!(scram.is_challenge_response());
    assert!(!Credentials::External.is_challenge_response());
}

#[test]
fn a_response_is_base64() {
    assert_eq!(encode_response(b"\0alice\0hunter2"), ["AGFsaWNlAGh1bnRlcjI="]);
    assert_eq!(decode_challenge("AGFsaWNlAGh1bnRlcjI=").as_deref(), Some(&b"\0alice\0hunter2"[..]));
}

#[test]
fn chunks_join_and_only_the_last_is_short() {
    let encoded = "A".repeat(1000);
    let lines = chunk_response(&encoded);
    assert_eq!(lines.iter().map(|line| line.len()).collect::<Vec<_>>(), [400, 400, 200]);
    assert_eq!(lines.concat(), encoded);
}

#[test]
fn credentials_are_shown_without_what_is_secret() {
    let plain = Credentials::Plain {
        username: "al\"ice".to_string(),
        password: "hunter2".to_string(),
    };
    assert_eq!(plain.redacted(), "Plain { username: \"al\\\"ice\", password: \"<redacted>\" }");
    assert_eq!(Credentials::External.redacted(), "External");
}
