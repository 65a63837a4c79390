use obby_client::client::Client;
use obby_client::config::Config;
use obby_client::model::DEFAULT_RETENTION;

#[test]
fn a_host_only_has_to_supply_the_nick() {
    let config = Config { nick: "me".to_string(), ..Config::default() };
    assert_eq!(config.nick, "me");
    assert_eq!(config.retention, DEFAULT_RETENTION);
    assert!(config.alt_nicks.is_empty());
    assert!(config.sasl.is_none());
}

#[test]
fn a_blank_username_is_filled_in_from_the_nick() {
    let config = Config { nick: "me".to_string(), ..Config::default() };
    let mut client = Client::new(config);
    client.connected();
    let mut sent = String::new();
    while let Some(bytes) = client.poll_transmit() {
        sent.push_str(&String::from_utf8_lossy(&bytes));
    }
    assert!(
        sent.contains("USER me 0 * me"),
        "registering with an empty username is refused outright by some servers, got: {sent}"
    );
}
