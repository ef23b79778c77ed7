use ankiquest::config::{Config, UserConfig};
use ankiquest::friend_nudges::{key, nudge, send, sent, settings, Outcome};
use ankiquest::store::Store;

fn reopened(store: Store) -> Store {
    let mut store = store;
    store.retire_nudges();
    store
}

#[test]
fn nudges_require_opt_in_and_limit_each_friend_until_the_next_anki_day() {
    let mut store = Store::new();
    let now = 1_800_000_000_000;
    assert_eq!(
        send(&mut store, "cerro", "Cerro", "hill", now),
        Outcome::Forbidden
    );
    assert!(
        !sent(
            &store,
            "cerro",
            "hill",
            store.clock("cerro").day(now)
        )
    );
    store.set_nudges("hill", true);
    store.set_nudges("friend", true);
    assert_eq!(
        send(&mut store, "cerro", "Cerro", "hill", now),
        Outcome::Sent
    );
    assert_eq!(
        send(&mut store, "cerro", "Cerro", "hill", now + 1000),
        Outcome::Repeated
    );
    assert_eq!(
        send(&mut store, "cerro", "Cerro", "friend", now),
        Outcome::Sent
    );
    assert_eq!(
        send(&mut store, "friend", "Friend", "hill", now),
        Outcome::Sent
    );
    let inbox = store.notifications("hill", now);
    assert_eq!(inbox.len(), 2);
    assert_eq!(inbox[0].kind, "nudge");
    assert!(!inbox[0].sender.is_empty());
    let mut store = reopened(store);
    assert_eq!(
        send(&mut store, "cerro", "Cerro", "hill", now),
        Outcome::Repeated
    );
    assert_eq!(
        send(&mut store, "cerro", "Cerro", "hill", now + 86_400_000),
        Outcome::Sent
    );
}

fn config() -> Config {
    let user = |token: &str| UserConfig {
        display: None,
        ntfy_topic: None,
        token: Some(token.into()),
    };
    Config {
        ntfy: None,
        users: vec![
            ("cerro".into(), user("cerro-secret")),
            ("hill".into(), user("hill-secret")),
        ],
    }
}

#[test]
fn nudges_go_to_other_players_who_want_them_once_a_day() {
    let config = config();
    let mut store = Store::new();
    let now = 1_800_000_000_000;
    assert_eq!(nudge(&config, &mut store, "cerro", "cerro", now), Outcome::Stranger);
    assert_eq!(nudge(&config, &mut store, "cerro", "missing", now), Outcome::Stranger);
    assert_eq!(nudge(&config, &mut store, "cerro", "hill", now), Outcome::Forbidden);
    store.set_nudges("hill", true);
    let shown = settings(&config, &store, "cerro", now);
    assert!(!shown.receiving);
    assert_eq!(shown.friends.len(), 1);
    assert_eq!(shown.friends[0].user, "hill");
    assert!(shown.friends[0].enabled && !shown.friends[0].sent_today);
    assert_eq!(nudge(&config, &mut store, "cerro", "hill", now), Outcome::Sent);
    assert_eq!(nudge(&config, &mut store, "cerro", "hill", now), Outcome::Repeated);
    assert!(settings(&config, &store, "cerro", now).friends[0].sent_today);
    assert_eq!(store.notifications("hill", now).len(), 1);
}

#[test]
fn the_key_of_a_nudge_names_the_sender_and_the_day() {
    assert_ne!(key("cerro", 20_833), key("cerro", 20_834));
    assert_ne!(key("cerro", 20_833), key("friend", 20_833));
    assert!(key("cerro", 20_833).contains("20833"));
}
