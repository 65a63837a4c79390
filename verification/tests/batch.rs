use obby_client::batch::{Batches, DEFAULT_MAX_BUFFERED, DEFAULT_MAX_OPEN};
use obby_client::wire::Line;

fn open_line(reference: &str, kind: &str, params: &[&str]) -> Line {
    let mut wire = Vec::from([format!("+{reference}"), kind.to_owned()]);
    wire.extend(params.iter().map(|param| (*param).to_owned()));
    Line::new("BATCH", wire)
}

fn close_line(reference: &str) -> Line {
    Line::new("BATCH", vec![format!("-{reference}")])
}

fn tagged(mut message: Line, key: &str, value: &str) -> Line {
    message.set_tag(key, value);
    message
}

fn privmsg(target: &str, body: &str) -> Line {
    Line::new("PRIVMSG", vec![target.to_owned(), body.to_owned()])
}

#[test]
fn reopening_a_reference_keeps_what_it_already_collected() {
    let mut batches = Batches::new();
    batches.open(&open_line("a", "chathistory", &["#chan"]));
    batches.route(tagged(privmsg("#chan", "one"), "batch", "a"));
    batches.open(&open_line("a", "netjoin", &[]));
    let closed = batches.close(&close_line("a")).expect("the batch is open");
    assert_eq!(closed.kind, "chathistory");
    assert_eq!(closed.messages.len(), 1);
}

#[test]
fn a_server_cannot_open_unboundedly_many_batches() {
    let mut batches = Batches::new();
    for index in 0..DEFAULT_MAX_OPEN + 10 {
        batches.open(&open_line(&format!("b{index}"), "chathistory", &[]));
    }
    assert!(batches.close(&close_line("b0")).is_some());
    assert!(
        batches
            .close(&close_line(&format!("b{DEFAULT_MAX_OPEN}")))
            .is_none()
    );
}

#[test]
fn opens_and_closes_a_batch_returning_its_messages_in_order() {
    let mut batches = Batches::new();
    batches.open(&open_line("a", "chathistory", &["#chan"]));
    assert!(
        batches
            .route(tagged(privmsg("#chan", "one"), "batch", "a"))
            .is_none()
    );
    assert!(
        batches
            .route(tagged(privmsg("#chan", "two"), "batch", "a"))
            .is_none()
    );

    let closed = batches.close(&close_line("a")).expect("batch was open");
    assert_eq!(closed.kind, "chathistory");
    assert_eq!(closed.messages.len(), 2);
    assert_eq!(closed.messages[0].trailing(), Some("one"));
    assert_eq!(closed.messages[1].trailing(), Some("two"));
}

#[test]
fn a_nested_batch_is_within_its_ancestor_at_any_depth() {
    let mut batches = Batches::new();
    batches.open(&open_line("outer", "chathistory", &[]));
    batches.open(&tagged(
        open_line("inner", "netsplit", &[]),
        "batch",
        "outer",
    ));

    assert!(batches.is_within("inner", "netsplit"));
    assert!(batches.is_within("inner", "chathistory"));
    assert!(!batches.is_within("outer", "netsplit"));
    assert!(!batches.is_within("nonexistent", "chathistory"));
}

#[test]
fn a_message_with_no_batch_tag_is_returned_unchanged() {
    let mut batches = Batches::new();
    batches.open(&open_line("a", "chathistory", &[]));
    let message = privmsg("#chan", "hello");
    let returned = batches
        .route(message.clone())
        .expect("an unbatched message is handed back");
    assert_eq!(returned, message);
}

#[test]
fn closing_a_reference_never_opened_returns_none() {
    let mut batches = Batches::new();
    assert!(batches.close(&close_line("nonexistent")).is_none());
}

#[test]
fn a_batch_left_open_when_the_connection_drops_is_forgotten() {
    let mut batches = Batches::new();
    batches.open(&open_line("a", "chathistory", &[]));
    batches.drop_all();
    assert!(batches.close(&close_line("a")).is_none());
}

#[test]
fn deduplicates_by_msgid_within_one_batch() {
    let mut batches = Batches::new();
    batches.open(&open_line("a", "chathistory", &[]));
    let first = tagged(
        tagged(privmsg("#chan", "hello"), "msgid", "m1"),
        "batch",
        "a",
    );
    let repeat = first.clone();
    batches.route(first);
    batches.route(repeat);

    let closed = batches.close(&close_line("a")).expect("batch was open");
    assert_eq!(closed.messages.len(), 1);
}

#[test]
fn enforces_the_buffer_bound_and_flags_the_overflow() {
    let mut batches = Batches::with_max_buffered(2);
    batches.open(&open_line("a", "chathistory", &[]));
    for id in ["m1", "m2", "m3"] {
        batches.route(tagged(
            tagged(privmsg("#chan", id), "msgid", id),
            "batch",
            "a",
        ));
    }

    let closed = batches.close(&close_line("a")).expect("batch was open");
    assert_eq!(closed.messages.len(), 2);
    assert!(closed.overflowed);
}

#[test]
fn preserves_the_parameters_from_the_open_line() {
    let mut batches = Batches::new();
    batches.open(&open_line("a", "chathistory", &["#chan", "extra"]));
    let closed = batches.close(&close_line("a")).expect("batch was open");
    assert_eq!(closed.params, ["#chan".to_owned(), "extra".to_owned()]);
}

#[test]
fn a_line_for_a_batch_that_is_not_open_is_handed_back() {
    let mut batches = Batches::new();
    batches.open(&open_line("a", "chathistory", &[]));
    let line = tagged(privmsg("#chan", "hello"), "batch", "b");
    assert_eq!(batches.route(line.clone()), Some(line));
}

#[test]
fn two_open_batches_do_not_mix() {
    let mut batches = Batches::new();
    batches.open(&open_line("a", "chathistory", &[]));
    batches.open(&open_line("b", "netjoin", &[]));
    batches.route(tagged(privmsg("#chan", "one"), "batch", "a"));
    batches.route(tagged(privmsg("#chan", "two"), "batch", "b"));
    let a = batches.close(&close_line("a")).expect("a is open");
    let b = batches.close(&close_line("b")).expect("b is open");
    assert_eq!(a.messages[0].trailing(), Some("one"));
    assert_eq!(b.messages[0].trailing(), Some("two"));
    assert_eq!((a.messages.len(), b.messages.len()), (1, 1));
}

#[test]
fn a_batch_keeps_the_default_number_of_lines() {
    let mut batches = Batches::default();
    batches.open(&open_line("a", "chathistory", &[]));
    for _ in 0..DEFAULT_MAX_BUFFERED + 1 {
        assert!(batches.route(tagged(privmsg("#chan", "x"), "batch", "a")).is_none());
    }
    let closed = batches.close(&close_line("a")).expect("a is open");
    assert_eq!(closed.messages.len(), 1024);
    assert!(closed.overflowed);
}
