use ankiquest::calendar::Clock;
use ankiquest::decks::{IncomingSettings, Preference, Snapshot};
use ankiquest::inbox::Outgoing;
use ankiquest::store::{Store, StoreError};
use ankiquest::subscriptions::Settings;

const NOW: i64 = 20_000 * 86_400_000 + 12 * 3_600_000;

fn reopened(store: Store) -> Store {
    let mut store = store;
    store.retire_nudges();
    store
}

fn settings(enabled: bool, senders: &[&str]) -> Settings {
    Settings {
        enabled,
        unsubscribed_senders: senders.iter().map(|s| (*s).into()).collect(),
    }
}

fn snapshot(id: &str, remaining: u64, day: i64) -> Snapshot {
    Snapshot {
        id: id.into(),
        name: format!("Private {id}"),
        remaining,
        reviewed_today: 2,
        day,
    }
}

fn share(store: &mut Store, id: &str, recipients: &[&str]) {
    let now = NOW;
    store
        .record_decks(
            "cerro",
            "Cerro",
            &[snapshot(id, 1, Clock::default().day(now))],
            Clock::default(),
            false,
            now,
        );
    store
        .set_deck_preferences(
            "cerro",
            &[Preference {
                id: id.into(),
                enabled: !recipients.is_empty(),
                recipients: recipients.iter().map(|s| (*s).into()).collect(),
            }],
        )
        .unwrap();
}

fn notice(store: &mut Store, to: &str, from: &str, kind: &str, now: i64) -> i64 {
    store
        .send(
            &Outgoing {
                to,
                from,
                title: "Notice",
                body: "Body",
                kind,
            },
            Clock::default().day(now),
            now,
        )
}

#[test]
fn unsubscribe_detaches_all_decks_survives_restart_and_cannot_be_undone_by_legacy_settings() {
    let mut store = Store::new();
    share(&mut store, "1", &["hill", "friend"]);
    share(&mut store, "2", &["hill"]);
    store
        .set_deck_subscriptions("hill", &settings(true, &["cerro"]), NOW)
        .unwrap();
    assert_eq!(store.decks("cerro")[0].recipients, ["friend"]);
    assert!(!store.decks("cerro")[1].enabled);
    assert!(
        store
            .deck_recipients
            .iter()
            .all(|row| !(row.0 == "cerro" && row.2 == "hill"))
    );
    store
        .set_incoming_settings(
            "hill",
            &IncomingSettings {
                enabled: true,
                muted_senders: vec![],
            },
        )
        .unwrap();
    assert!(
        store
            .set_deck_preferences(
                "cerro",
                &[Preference {
                    id: "1".into(),
                    enabled: true,
                    recipients: vec!["hill".into()]
                }]
            )
            .is_err()
    );
    assert_eq!(
        store.decks("cerro")[0].recipients,
        ["friend"],
        "rejected stale save rolls back"
    );
    let mut store = reopened(store);
    assert_eq!(store.unsubscribed_senders("hill"), ["cerro"]);
    store
        .set_deck_subscriptions("hill", &settings(true, &["cerro"]), NOW)
        .unwrap();
    store
        .set_deck_subscriptions("hill", &settings(true, &[]), NOW)
        .unwrap();
    let decks = store.decks("cerro");
    assert_eq!(decks[0].recipients, ["friend", "hill"]);
    assert_eq!(decks[1].recipients, ["hill"]);
    assert!(decks.iter().all(|deck| deck.enabled));
}

#[test]
fn unsubscribe_cancels_selected_and_future_pushes_without_affecting_other_messages() {
    let mut store = Store::new();
    let now = NOW;
    let old = notice(&mut store, "hill", "cerro", "completion", now);
    let retry = notice(&mut store, "hill", "cerro", "completion", now);
    assert!(store.begin_push(retry, now));
    store.finish_push(retry, false, now).unwrap();
    let other = notice(&mut store, "hill", "friend", "completion", now);
    let message = notice(&mut store, "hill", "cerro", "message", now);
    let reply = notice(&mut store, "hill", "cerro", "reply", now);
    let peer = notice(&mut store, "friend", "cerro", "completion", now);
    assert!(
        store
            .take_deck_deliveries(now)
            .iter()
            .any(|d| d.notification.id == old)
    );
    store
        .set_deck_subscriptions("hill", &settings(true, &["cerro"]), NOW)
        .unwrap();
    let suppressed = notice(&mut store, "hill", "cerro", "completion", now);
    for id in [old, retry, suppressed] {
        assert!(!store.begin_push(id, now + 120_000));
    }
    let ids = |store: &Store| {
        store
            .notifications("hill", now)
            .iter()
            .map(|n| n.id)
            .collect::<Vec<_>>()
    };
    assert_eq!(ids(&store), [other, message, reply]);
    assert_eq!(
        store
            .activity("hill", now, 90, None, 100)
            .items
            .len(),
        3
    );
    assert!(store.begin_push(peer, now));
    store
        .set_deck_subscriptions("hill", &settings(true, &[]), NOW)
        .unwrap();
    assert_eq!(ids(&store), [other, message, reply]);
    let future = notice(&mut store, "hill", "cerro", "completion", now + 1);
    assert!(store.begin_push(future, now + 1));
}

#[test]
fn resubscribe_never_replays_completed_decks_or_shares_additional_decks() {
    let mut store = Store::new();
    share(&mut store, "shared", &["hill"]);
    share(&mut store, "private", &["friend"]);
    let now = NOW;
    let day = Clock::default().day(now);
    store
        .set_deck_subscriptions("hill", &settings(true, &["cerro"]), NOW)
        .unwrap();
    let complete = [snapshot("shared", 0, day)];
    assert!(
        store
            .record_decks("cerro", "Cerro", &complete, Clock::default(), false, now)
            .is_empty()
    );
    assert_eq!(
        store.notifications.len(),
        0,
        "nothing is generated for a removed recipient"
    );
    store
        .set_deck_subscriptions("hill", &settings(true, &[]), NOW)
        .unwrap();
    assert!(
        store
            .record_decks("cerro", "Cerro", &complete, Clock::default(), false, now)
            .is_empty()
    );
    let tomorrow = now + 86_400_000;
    assert_eq!(
        store
            .record_decks(
                "cerro",
                "Cerro",
                &[snapshot("shared", 0, day + 1)],
                Clock::default(),
                false,
                tomorrow
            )[0]
            .recipients,
        1
    );
    assert_eq!(
        store
            .decks("cerro")
            .iter()
            .find(|d| d.id == "private")
            .unwrap()
            .recipients,
        ["friend"]
    );
}

#[test]
fn resubscribe_respects_later_sender_edits_and_deleted_decks() {
    let mut store = Store::new();
    for id in ["edited", "deleted", "unchanged"] {
        share(&mut store, id, &["hill", "friend"]);
    }
    store
        .set_deck_subscriptions("hill", &settings(true, &["cerro"]), NOW)
        .unwrap();
    share(&mut store, "edited", &["friend", "another"]);
    let day = Clock::default().day(NOW);
    store
        .prune_decks(
            "cerro",
            &[snapshot("edited", 1, day), snapshot("unchanged", 1, day)],
        );
    share(&mut store, "deleted", &["friend"]);
    store
        .set_deck_subscriptions("hill", &settings(true, &[]), NOW)
        .unwrap();
    for deck in store.decks("cerro") {
        assert_eq!(
            deck.recipients.contains(&"hill".to_string()),
            deck.id == "unchanged"
        );
    }
}

#[test]
fn resubscribe_uses_fresh_progress_when_no_snapshots_arrived_during_unsubscribe() {
    let mut store = Store::new();
    for id in ["old", "in_progress", "tomorrow"] {
        share(&mut store, id, &["hill", "friend"]);
    }
    let now = NOW;
    let day = Clock::default().day(now);
    store
        .set_deck_subscriptions("hill", &settings(true, &["cerro"]), NOW)
        .unwrap();
    // A client may stop reporting a deck when its recipients disappear.
    store
        .set_deck_subscriptions("hill", &settings(true, &[]), NOW)
        .unwrap();
    let old = store
        .record_decks(
            "cerro",
            "Cerro",
            &[snapshot("old", 0, day)],
            Clock::default(),
            false,
            now,
        );
    assert_eq!(
        old[0].recipients, 1,
        "only the continuously subscribed friend gets the completed baseline"
    );
    assert!(store.notifications("hill", now).is_empty());
    store
        .record_decks(
            "cerro",
            "Cerro",
            &[snapshot("in_progress", 1, day)],
            Clock::default(),
            false,
            now,
        );
    let fresh = store
        .record_decks(
            "cerro",
            "Cerro",
            &[snapshot("in_progress", 0, day)],
            Clock::default(),
            false,
            now,
        );
    assert_eq!(fresh[0].recipients, 2);
    let tomorrow = store
        .record_decks(
            "cerro",
            "Cerro",
            &[snapshot("tomorrow", 0, day + 1)],
            Clock::default(),
            false,
            now + 86_400_000,
        );
    assert_eq!(tomorrow[0].recipients, 2);
}

#[test]
fn sharing_senders_only_lists_enabled_selected_decks_even_when_receiving_is_paused() {
    let mut store = Store::new();
    share(&mut store, "1", &["hill", "friend"]);
    share(&mut store, "2", &["hill"]);
    assert_eq!(store.sharing_senders("hill"), ["cerro"]);
    assert!(store.sharing_senders("stranger").is_empty());
    store
        .set_deck_subscriptions("hill", &settings(false, &[]), NOW)
        .unwrap();
    assert_eq!(store.sharing_senders("hill"), ["cerro"]);
    store
        .set_deck_subscriptions("hill", &settings(false, &["cerro"]), NOW)
        .unwrap();
    assert!(store.sharing_senders("hill").is_empty());
    assert_eq!(store.sharing_senders("friend"), ["cerro"]);
    store
        .set_deck_subscriptions("hill", &settings(true, &[]), NOW)
        .unwrap();
    store
        .set_deck_preferences(
            "cerro",
            &[
                Preference {
                    id: "1".into(),
                    enabled: false,
                    recipients: vec!["hill".into()],
                },
                Preference {
                    id: "2".into(),
                    enabled: false,
                    recipients: vec!["hill".into()],
                },
            ],
        )
        .unwrap();
    assert!(store.sharing_senders("hill").is_empty());
}

#[test]
fn saving_other_deck_settings_preserves_unchanged_resubscription_choices() {
    let mut store = Store::new();
    share(&mut store, "1", &["hill", "friend"]);
    share(&mut store, "2", &["hill"]);
    share(&mut store, "3", &["hill", "friend"]);
    store
        .set_deck_subscriptions("hill", &settings(true, &["cerro"]), NOW)
        .unwrap();
    let preferences = store
        .decks("cerro")
        .into_iter()
        .map(|deck| Preference {
            enabled: deck.enabled && deck.id != "3",
            id: deck.id,
            recipients: deck.recipients,
        })
        .collect::<Vec<_>>();
    store.set_deck_preferences("cerro", &preferences).unwrap();
    store
        .set_deck_subscriptions("hill", &settings(true, &[]), NOW)
        .unwrap();
    let decks = store.decks("cerro");
    assert_eq!(decks[0].recipients, ["friend", "hill"]);
    assert_eq!(decks[1].recipients, ["hill"]);
    assert!(
        decks[1].enabled,
        "the last recipient can restore an unchanged deck"
    );
    assert_eq!(decks[2].recipients, ["friend"]);
    assert!(!decks[2].enabled);
}

#[test]
fn a_choice_of_subscriptions_is_checked_before_anything_changes() {
    let mut store = Store::new();
    share(&mut store, "1", &["hill"]);
    for senders in [vec!["hill"], vec!["cerro", "cerro"], vec![""], vec!["two\nlines"]] {
        assert_eq!(
            store.set_deck_subscriptions("hill", &settings(true, &senders), NOW),
            Err(StoreError::InvalidSubscriptions)
        );
    }
    assert!(store.unsubscribed_senders("hill").is_empty());
    assert_eq!(store.decks("cerro")[0].recipients, ["hill"]);
    store
        .set_deck_subscriptions("hill", &settings(false, &["cerro"]), NOW)
        .unwrap();
    assert_eq!(store.unsubscribed_senders("hill"), ["cerro"]);
    assert_eq!(store.unsubscribed_recipients("cerro"), ["hill"]);
    assert!(!store.incoming_settings("hill").enabled);
    assert_eq!(
        store.set_deck_preferences(
            "cerro",
            &[Preference {
                id: "1".into(),
                enabled: true,
                recipients: vec!["hill".into()]
            }]
        ),
        Err(StoreError::Unsubscribed)
    );
    assert_eq!(
        store.set_deck_preferences(
            "cerro",
            &[Preference {
                id: "1".into(),
                enabled: true,
                recipients: vec!["friend".into(), "friend".into()]
            }]
        ),
        Err(StoreError::RepeatedRecipient)
    );
    assert_eq!(
        store.set_incoming_settings(
            "hill",
            &IncomingSettings { enabled: true, muted_senders: vec!["".into()] }
        ),
        Err(StoreError::InvalidIncomingSettings)
    );
    assert_eq!(store.finish_push(99, true, NOW), Err(StoreError::NoNotification));
}

#[test]
fn coming_back_to_one_sender_leaves_the_others_as_they_are() {
    let mut store = Store::new();
    share(&mut store, "1", &["hill", "friend"]);
    share(&mut store, "2", &["hill"]);
    let day = Clock::default().day(NOW);
    store.record_decks("friend", "Friend", &[snapshot("9", 1, day)], Clock::default(), false, NOW);
    store
        .set_deck_preferences(
            "friend",
            &[Preference { id: "9".into(), enabled: true, recipients: vec!["cerro".into(), "hill".into()] }],
        )
        .unwrap();
    let shown = |store: &Store, user: &str| -> Vec<(String, bool, Vec<String>)> {
        store.decks(user).into_iter().map(|d| (d.id, d.enabled, d.recipients)).collect()
    };
    let before = (shown(&store, "cerro"), shown(&store, "friend"));
    store.set_deck_subscriptions("hill", &settings(true, &["cerro", "friend"]), NOW).unwrap();
    assert_eq!(
        shown(&store, "cerro"),
        [("1".into(), true, vec!["friend".into()]), ("2".into(), false, vec![])]
    );
    assert_eq!(shown(&store, "friend"), [("9".into(), true, vec!["cerro".into()])]);
    store.set_deck_subscriptions("hill", &settings(false, &["friend"]), NOW).unwrap();
    assert_eq!(shown(&store, "cerro"), before.0);
    assert_eq!(shown(&store, "friend"), [("9".into(), true, vec!["cerro".into()])]);
    store.set_deck_subscriptions("hill", &settings(true, &[]), NOW).unwrap();
    assert_eq!(shown(&store, "cerro"), before.0);
    assert_eq!(shown(&store, "friend"), before.1);
}
