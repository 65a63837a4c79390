use obby_client::label::{Labels, DEFAULT_TIMEOUT_MS};
use obby_client::wire::Line;

fn line(raw: &str) -> Line {
    Line::parse(raw).expect("line should parse")
}

#[test]
fn a_label_round_trips_to_the_data_registered_with_it() {
    let mut labels = Labels::new();
    let label = labels.generate();
    labels.register(label.clone(), 1_000, "whois alice".to_string());
    let reply = line(&format!(
        "@label={label} :irc.example.com 318 me alice :End of /WHOIS"
    ));
    assert_eq!(labels.resolve(&reply), Some("whois alice".to_string()));
}

#[test]
fn generated_labels_are_distinct() {
    let mut labels: Labels<()> = Labels::new();
    let a = labels.generate();
    let b = labels.generate();
    assert_ne!(a, b);
}

#[test]
fn a_bare_ack_resolves_a_label_with_no_visible_response() {
    let mut labels = Labels::new();
    labels.register("l1".to_string(), 1_000, "pong".to_string());
    let ack = line("@label=l1 :irc.example.com ACK");
    assert_eq!(labels.resolve(&ack), Some("pong".to_string()));
}

#[test]
fn a_message_without_a_label_resolves_nothing() {
    let mut labels: Labels<()> = Labels::new();
    let msg = line(":irc.example.com PING :abc");
    assert_eq!(labels.resolve(&msg), None);
}

#[test]
fn a_label_never_answered_times_out_and_is_returned() {
    let mut labels = Labels::new();
    labels.register("l1".to_string(), 1_000, "join #chan".to_string());
    assert!(labels.expire(999).is_empty());
    assert_eq!(labels.expire(1_000), vec!["join #chan".to_string()]);
}

#[test]
fn a_timed_out_label_does_not_leak_and_cannot_resolve_later() {
    let mut labels = Labels::new();
    labels.register("l1".to_string(), 1_000, "join #chan".to_string());
    labels.expire(1_000);
    let late_reply = line("@label=l1 :irc.example.com 366 me #chan :End of /NAMES");
    assert_eq!(labels.resolve(&late_reply), None);
}

#[test]
fn a_batch_response_only_completes_on_the_closing_line_not_the_first_member() {
    let mut labels = Labels::new();
    labels.register("l1".to_string(), 1_000, "whois alice".to_string());

    let open = line("@label=l1 :irc.example.com BATCH +b1 labeled-response");
    assert_eq!(labels.resolve(&open), None);

    let member = line("@batch=b1 :irc.example.com 311 me alice ~a host * :Alice");
    assert_eq!(labels.resolve(&member), None);

    let close = line(":irc.example.com BATCH -b1");
    assert_eq!(labels.resolve(&close), Some("whois alice".to_string()));
}

#[test]
fn closing_a_batch_we_never_opened_resolves_nothing() {
    let mut labels: Labels<()> = Labels::new();
    let close = line(":irc.example.com BATCH -unknown");
    assert_eq!(labels.resolve(&close), None);
}

#[test]
fn two_labels_in_flight_resolve_independently() {
    let mut labels = Labels::new();
    labels.register("l1".to_string(), 5_000, "first".to_string());
    labels.register("l2".to_string(), 5_000, "second".to_string());

    let reply2 = line("@label=l2 :irc.example.com ACK");
    assert_eq!(labels.resolve(&reply2), Some("second".to_string()));

    let reply1 = line("@label=l1 :irc.example.com ACK");
    assert_eq!(labels.resolve(&reply1), Some("first".to_string()));
}

#[test]
fn a_label_is_answered_once() {
    let mut labels = Labels::new();
    labels.register("l1".to_string(), DEFAULT_TIMEOUT_MS, "pong".to_string());
    let ack = line("@label=l1 :irc.example.com ACK");
    assert_eq!(labels.resolve(&ack), Some("pong".to_string()));
    assert_eq!(labels.resolve(&ack), None);
}

#[test]
fn overdue_labels_come_back_earliest_first() {
    let mut labels = Labels::new();
    labels.register("a".to_string(), 300, "late".to_string());
    labels.register("b".to_string(), 100, "early".to_string());
    labels.register("c".to_string(), 900, "in time".to_string());
    assert_eq!(labels.expire(500), vec!["early".to_string(), "late".to_string()]);
    assert_eq!(labels.expire(900), vec!["in time".to_string()]);
}
