use base64::Engine as _;
use obby_client::client::Client;
use obby_client::config::{Config, Phase};
use obby_client::event::Event;
use obby_client::sasl::{Credentials, SaslFailure};

/// The published RFC 7677 exchange, so the engine is checked against the specification's own
/// bytes rather than against our implementation agreeing with itself.
const SERVER_FIRST: &str =
    "r=rOprNGfwEbeRWgbNEkqO%hvYDpWUa2RaTCAfuxFIlj)hNlF$k0,s=W22ZaJ0SNY7soEsUEjb6gQ==,i=4096";
const SERVER_FINAL: &str = "v=6rriTRBi23WpRR/wtup+mMhUZUn/dB5nLTJRsjl95G4=";

fn b64(text: &str) -> String {
    base64::engine::general_purpose::STANDARD.encode(text)
}

fn negotiated() -> Client {
    let mut config = Config::new("me");
    config.sasl = Some(Credentials::Scram {
        username: "user".to_string(),
        password: "pencil".to_string(),
        nonce: "rOprNGfwEbeRWgbNEkqO".to_string(),
    });
    let mut client = Client::new(config);
    client.connected();
    client.handle_bytes(b":s CAP * LS :sasl=SCRAM-SHA-256,PLAIN\r\n");
    client.handle_bytes(b":s CAP * ACK :sasl\r\n");
    client
}

fn sent(client: &mut Client) -> String {
    let mut out = String::new();
    while let Some(bytes) = client.poll_transmit() {
        out.push_str(&String::from_utf8_lossy(&bytes));
    }
    out
}

#[test]
fn the_whole_exchange_runs_and_only_then_ends_negotiation() {
    let mut client = negotiated();
    assert!(sent(&mut client).contains("AUTHENTICATE SCRAM-SHA-256"));

    client.handle_bytes(b":s AUTHENTICATE +\r\n");
    assert_eq!(
        sent(&mut client),
        format!(
            "AUTHENTICATE {}\r\n",
            b64("n,,n=user,r=rOprNGfwEbeRWgbNEkqO")
        ),
    );
    assert_eq!(client.phase(), Phase::Negotiating);

    client.handle_bytes(format!(":s AUTHENTICATE {}\r\n", b64(SERVER_FIRST)).as_bytes());
    let proof = sent(&mut client);
    assert!(proof.contains(&b64(
        "c=biws,r=rOprNGfwEbeRWgbNEkqO%hvYDpWUa2RaTCAfuxFIlj)hNlF$k0,p=dHzbZapWIk4jUhN+Ute9ytag9zjfMHgsqmmiz7AndVQ="
    )));
    assert_eq!(
        client.phase(),
        Phase::Negotiating,
        "CAP END before the server has proven itself abandons the check entirely"
    );

    client.handle_bytes(format!(":s AUTHENTICATE {}\r\n", b64(SERVER_FINAL)).as_bytes());
    assert_eq!(sent(&mut client), "AUTHENTICATE +\r\n");

    client.handle_bytes(b":s 903 me :SASL authentication successful\r\n");
    assert_eq!(sent(&mut client), "CAP END\r\n");
    assert_eq!(client.phase(), Phase::Registering);
}

#[test]
fn a_server_that_cannot_prove_it_knows_the_password_is_refused() {
    let mut client = negotiated();
    client.handle_bytes(b":s AUTHENTICATE +\r\n");
    client.handle_bytes(format!(":s AUTHENTICATE {}\r\n", b64(SERVER_FIRST)).as_bytes());
    sent(&mut client);
    while client.poll_event().is_some() {}

    let forged = b64("v=AAAAAAAAAAAAAAAAAAAAAAAAAAAAAAAAAAAAAAAAAAA=");
    client.handle_bytes(format!(":s AUTHENTICATE {forged}\r\n").as_bytes());

    let mut events = Vec::new();
    while let Some(event) = client.poll_event() {
        events.push(event);
    }
    assert!(
        events.contains(&Event::SaslFailed {
            reason: SaslFailure::ServerNotVerified
        }),
        "a server that never knew the password must not be able to convince us it did"
    );
    assert_eq!(
        client.phase(),
        Phase::Registering,
        "registration still continues, unauthenticated"
    );
}

#[test]
fn a_malformed_challenge_ends_the_exchange_rather_than_hanging_it() {
    let mut client = negotiated();
    client.handle_bytes(b":s AUTHENTICATE +\r\n");
    sent(&mut client);
    client.handle_bytes(format!(":s AUTHENTICATE {}\r\n", b64("nonsense")).as_bytes());
    assert_eq!(sent(&mut client), "CAP END\r\n");
    assert_eq!(client.phase(), Phase::Registering);
}

#[test]
fn plain_is_skipped_when_the_server_will_not_take_it() {
    let mut config = Config::new("me");
    config.sasl = Some(Credentials::Plain {
        username: "user".to_string(),
        password: "pencil".to_string(),
    });
    let mut client = Client::new(config);
    client.connected();
    client.handle_bytes(b":s CAP * LS :sasl=SCRAM-SHA-256\r\n");
    client.handle_bytes(b":s CAP * ACK :sasl\r\n");
    let sent = sent(&mut client);
    assert!(!sent.contains("AUTHENTICATE"));
    assert!(sent.contains("CAP END"));
}
