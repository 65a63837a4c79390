use obby_client::caps::{wanted_caps, Capabilities, Capability};

#[test]
fn requests_only_what_is_offered_and_wanted() {
    let mut caps = Capabilities::default();
    caps.advertise("multi-prefix sasl=PLAIN,EXTERNAL something-we-never-want");
    let request = caps.to_request();
    assert!(request.contains(&"multi-prefix".to_string()));
    assert!(request.contains(&"sasl".to_string()));
    assert!(!request.iter().any(|c| c == "something-we-never-want"));
}

#[test]
fn keeps_the_value_of_an_acknowledged_capability() {
    let mut caps = Capabilities::default();
    caps.advertise("sasl=PLAIN,EXTERNAL");
    caps.requested(&vec!["sasl".to_string()]);
    caps.acknowledge("sasl=PLAIN,EXTERNAL");
    assert!(caps.has("sasl"));
    assert_eq!(caps.value("sasl"), Some("PLAIN,EXTERNAL"));
}

#[test]
fn an_ack_without_a_value_keeps_the_advertised_one() {
    let mut caps = Capabilities::default();
    caps.advertise("sasl=PLAIN,EXTERNAL");
    caps.requested(&vec!["sasl".to_string()]);
    caps.acknowledge("sasl");
    assert_eq!(caps.value("sasl"), Some("PLAIN,EXTERNAL"));
}

#[test]
fn is_not_settled_until_every_request_is_answered() {
    let mut caps = Capabilities::default();
    caps.advertise("multi-prefix away-notify");
    let request = caps.to_request();
    caps.requested(&request);
    assert!(!caps.settled());
    caps.acknowledge("multi-prefix");
    assert!(!caps.settled());
    caps.reject("away-notify");
    assert!(caps.settled());
}

#[test]
fn a_negated_ack_drops_the_capability() {
    let mut caps = Capabilities::default();
    caps.advertise("echo-message");
    caps.requested(&vec!["echo-message".to_string()]);
    caps.acknowledge("echo-message");
    assert!(caps.has("echo-message"));
    caps.acknowledge("-echo-message");
    assert!(!caps.has("echo-message"));
}

#[test]
fn cap_del_removes_an_offer_and_the_hold() {
    let mut caps = Capabilities::default();
    caps.advertise("away-notify");
    caps.requested(&vec!["away-notify".to_string()]);
    caps.acknowledge("away-notify");
    caps.withdraw("away-notify");
    assert!(!caps.has("away-notify"));
    assert!(!caps.offers("away-notify"));
}

#[test]
fn does_not_re_request_what_is_already_held() {
    let mut caps = Capabilities::default();
    caps.advertise("multi-prefix");
    caps.requested(&vec!["multi-prefix".to_string()]);
    caps.acknowledge("multi-prefix");
    assert!(caps.to_request().is_empty());
}

#[test]
fn what_was_asked_for_is_not_asked_for_again() {
    let mut caps = Capabilities::default();
    caps.advertise("multi-prefix away-notify");
    let request = caps.to_request();
    assert_eq!(request.len(), 2);
    caps.requested(&request);
    assert!(caps.to_request().is_empty());
}

#[test]
fn what_is_enabled_is_told_with_its_value() {
    let mut caps = Capabilities::default();
    caps.advertise("sasl=PLAIN away-notify");
    let request = caps.to_request();
    caps.requested(&request);
    assert_eq!(caps.acknowledge("sasl away-notify"), ["sasl", "away-notify"]);
    assert_eq!(
        caps.enabled(),
        [
            Capability { name: "away-notify".to_string(), value: None },
            Capability { name: "sasl".to_string(), value: Some("PLAIN".to_string()) },
        ]
    );
    assert_eq!(caps.value("away-notify"), None);
}

#[test]
fn every_name_is_wanted_once() {
    let wanted = wanted_caps();
    assert!(wanted.contains(&"message-tags"));
    for (i, name) in wanted.iter().enumerate() {
        assert!(!wanted[..i].contains(name), "{name} is there twice");
    }
}
