use obby_client::isupport::{Features, ModeChange};
use obby_client::wire::{Source, Tag};
use obby_client::Line;

fn texts(items: &[&str]) -> Vec<String> {
    items.iter().map(|item| item.to_string()).collect()
}

fn change(set: bool, mode: char, arg: Option<&str>, membership: bool) -> ModeChange {
    ModeChange { set, mode, arg: arg.map(|a| a.to_string()), membership }
}

#[test]
fn a_line_is_written_with_its_tags_escaped() {
    let mut line = Line::new("PRIVMSG", texts(&["#c", "a b"]));
    line.tags.push(Tag { key: "k".to_string(), value: Some("; \\\r\nx".to_string()) });
    line.tags.push(Tag { key: "+flag".to_string(), value: None });
    line.source = Some(Source {
        name: "n".to_string(),
        user: Some("u".to_string()),
        host: Some("h".to_string()),
    });
    assert_eq!(line.render(), "@k=\\:\\s\\\\\\r\\nx;+flag :n!u@h PRIVMSG #c :a b");
}

#[test]
fn only_a_last_parameter_that_needs_it_is_marked() {
    assert_eq!(Line::new("JOIN", texts(&["#c"])).render(), "JOIN #c");
    assert_eq!(Line::new("QUIT", texts(&[])).render(), "QUIT");
    assert_eq!(Line::new("PRIVMSG", texts(&["#c", ""])).render(), "PRIVMSG #c :");
    assert_eq!(Line::new("PRIVMSG", texts(&["#c", ":o"])).render(), "PRIVMSG #c ::o");
    assert_eq!(Line::new("USER", texts(&["a b", "c"])).render(), "USER a b c");
}

#[test]
fn a_source_may_lack_its_user_or_its_host() {
    let mut line = Line::new("JOIN", texts(&["#c"]));
    line.source = Some(Source { name: "n".to_string(), user: None, host: Some("h".to_string()) });
    assert_eq!(line.render(), ":n@h JOIN #c");
    line.source = Some(Source { name: "n".to_string(), user: Some("u".to_string()), host: None });
    assert_eq!(line.render(), ":n!u JOIN #c");
}

#[test]
fn the_escapes_in_an_advertised_value_are_read() {
    let mut features = Features::default();
    assert_eq!(features.apply("NETWORK=Obby\\x20World").value.as_deref(), Some("Obby World"));
    assert_eq!(features.apply("A=a\\x3db").value.as_deref(), Some("a=b"));
    assert_eq!(features.apply("B=\\xe9").value.as_deref(), Some("\u{e9}"));
    assert_eq!(features.apply("C=\\xq1\\x4").value.as_deref(), Some("\\xq1\\x4"));
    assert_eq!(features.apply("D=\\x\\x41").value.as_deref(), Some("\\xA"));
    assert_eq!(features.apply("E=\\x+9|").value.as_deref(), Some("\t|"));
    assert_eq!(features.apply("F=\\n\\").value.as_deref(), Some("\\n\\"));
    assert_eq!(features.apply("G=\\x\u{e9}1").value.as_deref(), Some("\\x\u{e9}1"));
    assert_eq!(features.apply("H=\\x4\u{e9}").value.as_deref(), Some("\\x4\u{e9}"));
    assert_eq!(features.apply("I=\\x-9").value.as_deref(), Some("\\x-9"));
}

#[test]
fn a_mode_string_is_read_as_a_silent_server_means_it() {
    let features = Features::default();
    assert_eq!(features.parse_channel_modes(&Vec::new()), Vec::new());
    assert_eq!(
        features.parse_channel_modes(&texts(&["+oZl-kl+b", "alice", "5", "key", "mask"])),
        vec![
            change(true, 'o', Some("alice"), true),
            change(true, 'Z', None, false),
            change(true, 'l', Some("5"), false),
            change(false, 'k', Some("key"), false),
            change(false, 'l', None, false),
            change(true, 'b', Some("mask"), false),
        ],
    );
}

#[test]
fn a_mode_string_is_read_by_the_advertised_classes() {
    let mut features = Features::default();
    features.apply("PREFIX=(q)~");
    features.apply("CHANMODES=e,f");
    assert_eq!(
        features.parse_channel_modes(&texts(&["eqfblo", "1", "2", "3", "4"])),
        vec![
            change(true, 'e', Some("1"), false),
            change(true, 'q', Some("2"), true),
            change(true, 'f', Some("3"), false),
            change(true, 'b', None, false),
            change(true, 'l', None, false),
            change(true, 'o', None, false),
        ],
    );
    features.apply("CHANMODES+=,l");
    assert_eq!(
        features.parse_channel_modes(&texts(&["l-l+e", "1"])),
        vec![
            change(true, 'l', Some("1"), false),
            change(false, 'l', None, false),
            change(true, 'e', None, false),
        ],
    );
    features.apply("-CHANMODES");
    assert_eq!(
        features.parse_channel_modes(&texts(&["be", "1"])),
        vec![change(true, 'b', Some("1"), false), change(true, 'e', None, false)],
    );
    features.apply("CHANMODES");
    assert_eq!(
        features.parse_channel_modes(&texts(&["k", "1"])),
        vec![change(true, 'k', Some("1"), false)],
    );
}
