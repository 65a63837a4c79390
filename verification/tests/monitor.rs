use obby_client::monitor::{batched, split_targets, Monitor};
use obby_client::wire::{CaseFolded, Casemapping};

fn fold(nick: &str) -> CaseFolded {
    Casemapping::Rfc1459.fold(nick)
}

#[test]
fn watching_someone_says_nothing_about_whether_they_are_here() {
    let mut monitor = Monitor::new();
    monitor.watch(vec![fold("alice")]);
    assert!(monitor.is_watching(&fold("alice")));
    assert!(
        !monitor.is_online(&fold("alice")),
        "we have not heard yet, and guessing online would show a false green dot"
    );
}

#[test]
fn the_server_deciding_someone_is_online_also_means_we_watch_them() {
    let mut monitor = Monitor::new();
    monitor.mark_online(fold("alice"));
    assert!(monitor.is_watching(&fold("alice")));
    assert!(monitor.is_online(&fold("alice")));

    monitor.mark_offline(&fold("alice"));
    assert!(
        monitor.is_watching(&fold("alice")),
        "going offline is not the same as being dropped"
    );
    assert!(!monitor.is_online(&fold("alice")));
}

#[test]
fn dropping_someone_forgets_both_facts() {
    let mut monitor = Monitor::new();
    monitor.mark_online(fold("alice"));
    monitor.unwatch(&vec![fold("alice")]);
    assert!(!monitor.is_watching(&fold("alice")));
    assert!(!monitor.is_online(&fold("alice")));
}

#[test]
fn folding_means_one_person_however_they_are_spelled() {
    let mut monitor = Monitor::new();
    monitor.mark_online(fold("[alice]"));
    assert!(
        monitor.is_online(&fold("{ALICE}")),
        "rfc1459 folds braces onto brackets, so this is the same person"
    );
    assert_eq!(monitor.len(), 1);
}

#[test]
fn a_dropped_link_forgets_who_was_here_but_not_who_we_watch() {
    let mut monitor = Monitor::new();
    monitor.mark_online(fold("alice"));
    monitor.forget_presence();
    assert!(monitor.is_watching(&fold("alice")));
    assert!(
        !monitor.is_online(&fold("alice")),
        "presence from the old link says nothing about the new one"
    );
}

#[test]
fn a_long_list_is_split_to_stay_inside_the_servers_limit() {
    let targets: Vec<String> = (0..7).map(|i| format!("nick{i}")).collect();
    let requests = batched(&targets, 3);
    assert_eq!(
        requests,
        [
            "nick0,nick1,nick2".to_string(),
            "nick3,nick4,nick5".to_string(),
            "nick6".to_string()
        ],
        "one oversized request is refused whole, so it has to be several"
    );
}

#[test]
fn a_limit_of_zero_still_makes_progress() {
    let targets = vec!["alice".to_string()];
    assert_eq!(batched(&targets, 0), ["alice".to_string()]);
}

#[test]
fn reading_a_target_list_ignores_empty_entries() {
    assert_eq!(
        split_targets("alice,,bob,"),
        ["alice".to_string(), "bob".to_string()]
    );
    assert!(split_targets("").is_empty());
}

#[test]
fn whom_we_watch_is_listed_in_order() {
    let mut monitor = Monitor::new();
    monitor.watch(vec![fold("zoe"), fold("Bob"), fold("bob")]);
    let watched: Vec<&str> = monitor.watched().iter().map(|nick| nick.as_str()).collect();
    assert_eq!(watched, ["bob", "zoe"]);
    assert_eq!(monitor.len(), 2);
    monitor.clear();
    assert!(monitor.is_empty());
}
