use obby_client::scram::{
    client_final_bare, constant_time_eq, field, read_server_first, signed_message, xor_bytes, Scram,
    ScramError, ServerFirst,
};

/// The worked example from RFC 7677 section 3.
const USER: &str = "user";
const PASSWORD: &str = "pencil";
const CLIENT_NONCE: &str = "rOprNGfwEbeRWgbNEkqO";
const SERVER_FIRST: &str =
    "r=rOprNGfwEbeRWgbNEkqO%hvYDpWUa2RaTCAfuxFIlj)hNlF$k0,s=W22ZaJ0SNY7soEsUEjb6gQ==,i=4096";

#[test]
fn the_first_message_carries_the_user_and_our_nonce() {
    let scram = Scram::new(USER, PASSWORD, CLIENT_NONCE);
    assert_eq!(
        scram.client_first(),
        b"n,,n=user,r=rOprNGfwEbeRWgbNEkqO".to_vec()
    );
}

#[test]
fn the_proof_matches_the_published_example() {
    let mut scram = Scram::new(USER, PASSWORD, CLIENT_NONCE);
    let final_message = scram
        .client_final(SERVER_FIRST.as_bytes())
        .expect("the example server message is well formed");
    assert_eq!(
        core::str::from_utf8(&final_message).expect("utf8"),
        "c=biws,r=rOprNGfwEbeRWgbNEkqO%hvYDpWUa2RaTCAfuxFIlj)hNlF$k0,p=dHzbZapWIk4jUhN+Ute9ytag9zjfMHgsqmmiz7AndVQ=",
        "RFC 7677 publishes this exact proof, so a mismatch means the derivation is wrong"
    );
}

#[test]
fn the_servers_own_proof_is_checked() {
    let mut scram = Scram::new(USER, PASSWORD, CLIENT_NONCE);
    scram
        .client_final(SERVER_FIRST.as_bytes())
        .expect("client final");
    assert_eq!(
        scram.verify(b"v=6rriTRBi23WpRR/wtup+mMhUZUn/dB5nLTJRsjl95G4="),
        Ok(()),
        "the published server signature must be accepted"
    );
}

#[test]
fn a_server_that_never_knew_the_password_is_rejected() {
    let mut scram = Scram::new(USER, PASSWORD, CLIENT_NONCE);
    scram
        .client_final(SERVER_FIRST.as_bytes())
        .expect("client final");
    assert_eq!(
        scram.verify(b"v=AAAAAAAAAAAAAAAAAAAAAAAAAAAAAAAAAAAAAAAAAAA="),
        Err(ScramError::ServerProofInvalid),
        "skipping this check is how a fake server convinces a client it is real"
    );
}

#[test]
fn a_server_that_does_not_extend_our_nonce_is_not_answering_us() {
    let mut scram = Scram::new(USER, PASSWORD, CLIENT_NONCE);
    assert_eq!(
        scram.client_final(b"r=somebodyelsesnonce,s=W22ZaJ0SNY7soEsUEjb6gQ==,i=4096"),
        Err(ScramError::NonceMismatch)
    );
    assert_eq!(
        scram.client_final(
            format!("r={CLIENT_NONCE},s=W22ZaJ0SNY7soEsUEjb6gQ==,i=4096").as_bytes()
        ),
        Err(ScramError::NonceMismatch),
        "the server has to contribute its own half, not merely echo ours"
    );
}

#[test]
fn an_absurd_iteration_count_is_refused_rather_than_run() {
    let mut scram = Scram::new(USER, PASSWORD, CLIENT_NONCE);
    assert_eq!(
        scram.client_final(
            format!("r={CLIENT_NONCE}x,s=W22ZaJ0SNY7soEsUEjb6gQ==,i=4000000000")
                .as_bytes()
        ),
        Err(ScramError::TooManyIterations),
        "the count comes from the server, so it must be bounded on our side"
    );
    assert_eq!(
        scram.client_final(
            format!("r={CLIENT_NONCE}x,s=W22ZaJ0SNY7soEsUEjb6gQ==,i=0").as_bytes()
        ),
        Err(ScramError::TooManyIterations)
    );
}

#[test]
fn a_malformed_server_message_is_refused() {
    let mut scram = Scram::new(USER, PASSWORD, CLIENT_NONCE);
    assert_eq!(scram.client_final(b""), Err(ScramError::Malformed));
    assert_eq!(scram.client_final(b"nonsense"), Err(ScramError::Malformed));
    assert_eq!(
        scram.client_final(b"r=abc,s=notbase64!,i=4096"),
        Err(ScramError::NonceMismatch),
        "the nonce is checked before the salt is even decoded"
    );
}

#[test]
fn verifying_before_the_exchange_has_run_fails_rather_than_passing() {
    let scram = Scram::new(USER, PASSWORD, CLIENT_NONCE);
    assert_eq!(scram.verify(b"v=anything"), Err(ScramError::Malformed));
}

#[test]
fn a_username_cannot_rewrite_the_message_around_it() {
    let scram = Scram::new("ev,il=user", PASSWORD, CLIENT_NONCE);
    let first = String::from_utf8(scram.client_first()).expect("utf8");
    assert!(first.contains("n=ev=2Cil=3Duser"));
    assert_eq!(
        first.matches(',').count(),
        3,
        "the header's two commas plus the one before r=, and none smuggled in by the name"
    );
}

#[test]
fn a_nonce_cannot_smuggle_a_field_separator() {
    let scram = Scram::new(USER, PASSWORD, "abc,r=evil");
    assert_eq!(scram.client_first(), b"n,,n=user,r=abcrevil".to_vec());
}

#[test]
fn an_empty_nonce_still_produces_a_usable_one() {
    let scram = Scram::new(USER, PASSWORD, ",,,");
    let first = String::from_utf8(scram.client_first()).expect("utf8");
    let (_, nonce) = first.split_once(",r=").expect("a nonce");
    assert!(!nonce.is_empty());
}

#[test]
fn comparison_does_not_leak_where_two_values_differ() {
    assert!(constant_time_eq(&b"abc".to_vec(), &b"abc".to_vec()));
    assert!(!constant_time_eq(&b"abc".to_vec(), &b"abd".to_vec()));
    assert!(!constant_time_eq(&b"abc".to_vec(), &b"ab".to_vec()));
}

#[test]
fn a_salt_that_is_no_base64_is_refused() {
    let mut scram = Scram::new(USER, PASSWORD, CLIENT_NONCE);
    assert_eq!(
        scram.client_final(format!("r={CLIENT_NONCE}x,s=!!,i=4096").as_bytes()),
        Err(ScramError::BadSalt)
    );
}

#[test]
fn fields_are_read_by_their_key() {
    assert_eq!(field("r=abc,s=c2FsdA==,i=1", 's').as_deref(), Some("c2FsdA=="));
    assert_eq!(field("r=abc", 'v'), None);
}

#[test]
fn the_servers_first_message_is_taken_apart() {
    assert_eq!(
        read_server_first("r=abcdef,s=c2FsdA==,i=4096", "abc"),
        Ok(ServerFirst { nonce: "abcdef".to_string(), salt: "c2FsdA==".to_string(), iterations: 4096 })
    );
    assert_eq!(read_server_first("r=abc,s=c2FsdA==,i=4096", "abc"), Err(ScramError::NonceMismatch));
}

#[test]
fn what_is_signed_is_all_three_messages() {
    assert_eq!(client_final_bare("abc"), "c=biws,r=abc");
    assert_eq!(signed_message("n=u,r=a", "r=ab,s=x,i=1", "c=biws,r=ab"), "n=u,r=a,r=ab,s=x,i=1,c=biws,r=ab");
    assert_eq!(xor_bytes(&vec![1, 2, 255], &vec![3, 2, 1]), vec![2, 0, 254]);
}

#[test]
fn an_exchange_is_shown_without_the_password() {
    let scram = Scram::new(USER, PASSWORD, CLIENT_NONCE);
    assert_eq!(
        scram.redacted(),
        "Scram { client_nonce: \"rOprNGfwEbeRWgbNEkqO\", password: \"<redacted>\", .. }"
    );
}
