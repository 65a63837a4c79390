use obby_client::client::Client;
use obby_client::config::Config;
use obby_client::event::{Event, Severity};

fn first_reply(raw: &[u8]) -> Event {
    let mut client = Client::new(Config::new("me"));
    client.handle_bytes(raw);
    client.poll_event().expect("a reply reaches the host")
}

#[test]
fn a_failure_carries_its_code_and_description() {
    assert_eq!(
        first_reply(b":s FAIL JOIN CHANNEL_FULL #obby :Channel is full\r\n"),
        Event::Reply {
            severity: Severity::Fail,
            command: "JOIN".to_string(),
            code: "CHANNEL_FULL".to_string(),
            context: vec!["#obby".to_string()],
            text: "Channel is full".to_string(),
        }
    );
}

#[test]
fn a_reply_with_no_context_still_parses() {
    assert_eq!(
        first_reply(b":s WARN * ACCOUNT_REQUIRED :Log in for more\r\n"),
        Event::Reply {
            severity: Severity::Warn,
            command: "*".to_string(),
            code: "ACCOUNT_REQUIRED".to_string(),
            context: Vec::new(),
            text: "Log in for more".to_string(),
        }
    );
}

#[test]
fn a_note_is_reported_without_being_treated_as_an_error() {
    let Event::Reply { severity, .. } = first_reply(b":s NOTE * HELLO :Welcome\r\n") else {
        panic!("a NOTE is a standard reply");
    };
    assert_eq!(severity, Severity::Note);
}

#[test]
fn a_reply_missing_its_code_is_dropped_rather_than_half_reported() {
    let mut client = Client::new(Config::new("me"));
    client.handle_bytes(b":s FAIL\r\n");
    assert!(matches!(client.poll_event(), Some(Event::Raw { .. })));
}
