use ankiquest::calendar::Clock;
use ankiquest::decks::{
    valid_clock, valid_incoming_settings, valid_preferences, valid_snapshots, Deck,
    IncomingSettings, Preference, Recipient, Snapshot, MAX_RECIPIENTS,
};
use ankiquest::game::Event;
use ankiquest::inbox::{Outgoing, ACTIVITY_AGE_MS, INBOX_AGE_MS, PUSH_LEASE_MS};
use ankiquest::store::Store;

const DAY: i64 = 20_000;
const NOW: i64 = DAY * 86_400_000 + 12 * 3_600_000;

#[test]
fn activity_retention_pagination_reads_and_delivery_are_independent() {
    let mut store = Store::new();
    let send = |store: &mut Store, to: &str, age: i64| {
        store
            .send(
                &Outgoing {
                    to,
                    from: "sender",
                    title: "Message",
                    body: "Hello",
                    kind: "message",
                },
                DAY,
                NOW - age * 86_400_000,
            )
    };
    let recent = send(&mut store, "hill", 0);
    let peer = send(&mut store, "friend", 0);
    let eight = send(&mut store, "hill", 8);
    let forty = send(&mut store, "hill", 40);
    let expired = send(&mut store, "hill", 91);
    store
        .send_once(
            &Outgoing {
                to: "hill",
                from: "",
                title: "Push only",
                body: "Hidden",
                kind: "event",
            },
            "test-push",
            DAY,
            NOW,
            true,
        );
    let page = store.activity("hill", NOW, 90, None, 1);
    assert_eq!(
        (
            page.unread_count,
            page.action_count,
            page.retention_days,
            page.window_days
        ),
        (3, 0, 90, 90)
    );
    assert_eq!(page.items[0].id, forty);
    assert_eq!(page.next_before, Some(forty));
    let next = store
        .activity("hill", NOW, 90, page.next_before, 1);
    assert_eq!(next.items[0].id, eight);
    assert_eq!(
        next.unread_count, 3,
        "counts include the whole window, not just this page"
    );
    assert_eq!(
        store
            .activity("hill", NOW, 30, None, 200)
            .unread_count,
        2
    );
    assert_eq!(
        store
            .notifications("hill", NOW)
            .iter()
            .map(|n| n.id)
            .collect::<Vec<_>>(),
        [recent]
    );
    store
        .read_activity("hill", &[recent, recent, peer, expired, i64::MAX], NOW);
    store.read_activity("hill", &[recent], NOW + 1000);
    assert_eq!(
        store
            .activity("friend", NOW, 90, None, 100)
            .unread_count,
        1
    );
    let mut store = reopened(store);
    let activity = store.activity("hill", NOW, 90, None, 100);
    assert_eq!(activity.unread_count, 2);
    assert_eq!(
        activity
            .items
            .iter()
            .find(|n| n.id == recent)
            .unwrap()
            .read_at,
        Some(NOW / 1000)
    );
    let deliveries = store.take_deck_deliveries(NOW);
    assert!(
        deliveries.iter().any(|d| d.notification.id == recent),
        "reading does not consume a delivery"
    );
    assert!(
        deliveries
            .iter()
            .all(|d| ![eight, forty, expired].contains(&d.notification.id))
    );
    assert!(!store.begin_push(eight, NOW));
    assert_eq!(
        store
            .activity("hill", NOW, 90, None, 100)
            .items
            .len(),
        3
    );
    assert!(store.notifications.iter().all(|row| row.id != expired));
}

fn incoming(enabled: bool, muted_senders: &[&str]) -> IncomingSettings {
    IncomingSettings {
        enabled,
        muted_senders: muted_senders
            .iter()
            .map(|sender| (*sender).into())
            .collect(),
    }
}

fn queue_kind(store: &mut Store, to: &str, from: &str, kind: &str, at: i64) -> i64 {
    store
        .send(
            &Outgoing {
                to,
                from,
                title: "Queued",
                body: "Waiting",
                kind,
            },
            DAY,
            at,
        )
}

#[test]
fn incoming_settings_validate_shape_and_default_to_existing_delivery() {
    let mut store = Store::new();
    let settings = store.incoming_settings("hill");
    assert!(settings.enabled);
    assert!(settings.muted_senders.is_empty());
    assert!(valid_incoming_settings(&incoming(true, &[])));
    assert!(valid_incoming_settings(&incoming(
        false,
        &["cerro", "friend"]
    )));
    for senders in [
        vec![""],
        vec![" "],
        vec!["bad\nname"],
        vec!["cerro", "cerro"],
    ] {
        assert!(!valid_incoming_settings(&incoming(true, &senders)));
    }
    assert!(!valid_incoming_settings(&incoming(
        true,
        &[&"x".repeat(129)]
    )));
    let too_many = IncomingSettings {
        enabled: true,
        muted_senders: (0..=MAX_RECIPIENTS)
            .map(|id| format!("person{id}"))
            .collect(),
    };
    assert!(!valid_incoming_settings(&too_many));
    let id = queue_kind(&mut store, "hill", "cerro", "completion", NOW);
    assert_eq!(store.notifications("hill", NOW)[0].id, id);
    assert!(store.begin_push(id, NOW));
    store
        .set_incoming_settings("hill", &incoming(true, &["cerro"]))
        .unwrap();
    assert!(
        store
            .set_incoming_settings("hill", &incoming(false, &["friend", "friend"]))
            .is_err()
    );
    let unchanged = store.incoming_settings("hill");
    assert!(unchanged.enabled);
    assert_eq!(unchanged.muted_senders, ["cerro"]);
}

#[test]
fn incoming_choices_start_with_delivery_and_survive_restart() {
    let mut store = Store::new();
    let id = queue_kind(&mut store, "hill", "cerro", "completion", NOW);
    assert!(store.incoming_settings("hill").enabled);
    assert_eq!(store.notifications("hill", NOW)[0].id, id);
    assert_eq!(
        store.take_deck_deliveries(NOW)[0].notification.id,
        id
    );
    store
        .set_incoming_settings("hill", &incoming(false, &["cerro"]))
        .unwrap();
    let mut store = reopened(store);
    let mut settings = store.incoming_settings("hill");
    assert!(!settings.enabled);
    assert_eq!(settings.muted_senders, ["cerro"]);
    settings.enabled = true;
    store.set_incoming_settings("hill", &settings).unwrap();
    assert_eq!(
        store.incoming_settings("hill").muted_senders,
        ["cerro"]
    );
    assert!(store.notifications("hill", NOW).is_empty());
    assert!(store.take_deck_deliveries(NOW).is_empty());
    store
        .set_incoming_settings("hill", &incoming(true, &[]))
        .unwrap();
    assert!(!store.begin_push(id, NOW + PUSH_LEASE_MS));
    assert!(store.notifications("hill", NOW).is_empty());
    let future = queue_kind(&mut store, "hill", "cerro", "completion", NOW + 1);
    assert_eq!(store.notifications("hill", NOW + 1)[0].id, future);
}

#[test]
fn known_incoming_senders_exposes_only_existing_recipient_relationships() {
    let mut store = completion_fixture(&[("1", "Private deck name", &["hill"])]);
    let now = NOW;
    queue_kind(&mut store, "hill", "recent", "completion", now);
    queue_kind(
        &mut store,
        "hill",
        "expired",
        "completion",
        now - INBOX_AGE_MS - 1,
    );
    queue_kind(&mut store, "hill", "reply_only", "reply", now);
    queue_kind(&mut store, "stranger", "not_yours", "completion", now);
    queue_kind(&mut store, "hill", "hill", "completion", now);
    store
        .set_incoming_settings("hill", &incoming(true, &["remembered"]))
        .unwrap();
    assert_eq!(
        store.known_incoming_senders("hill", now),
        ["cerro", "recent", "remembered"]
    );
    assert!(
        store
            .known_incoming_senders("unrelated", now)
            .is_empty()
    );
    assert_eq!(store.decks("cerro")[0].recipients, ["hill"]);
}

#[test]
fn sender_mute_cancels_selected_retry_and_sent_completions_but_keeps_other_kinds() {
    let mut store = Store::new();
    store.set_nudges("hill", true);
    let selected = queue_kind(&mut store, "hill", "cerro", "completion", NOW);
    let retry = queue_kind(&mut store, "hill", "cerro", "completion", NOW);
    let sent = queue_kind(&mut store, "hill", "cerro", "completion", NOW);
    let other_sender = queue_kind(&mut store, "hill", "friend", "completion", NOW);
    let other_recipient = queue_kind(&mut store, "friend", "cerro", "completion", NOW);
    let unrelated: Vec<_> = ["reply", "message", "nudge", "event", "risk"]
        .iter()
        .map(|kind| queue_kind(&mut store, "hill", "cerro", kind, NOW))
        .collect();
    assert!(store.begin_push(retry, NOW));
    store.finish_push(retry, false, NOW).unwrap();
    assert!(store.begin_push(sent, NOW));
    store.finish_push(sent, true, NOW).unwrap();
    let selected_batch = store.take_deck_deliveries(NOW);
    assert!(
        selected_batch
            .iter()
            .any(|delivery| delivery.notification.id == selected)
    );
    store
        .set_incoming_settings("hill", &incoming(true, &["cerro"]))
        .unwrap();
    assert!(
        !store.begin_push(selected, NOW),
        "a selected batch must recheck opt-out"
    );
    assert!(!store.begin_push(retry, NOW + PUSH_LEASE_MS));
    assert!(
        store
            .reply("hill", "Hill", selected, "Hidden", NOW)
            .is_none()
    );
    let inbox = store.notifications("hill", NOW);
    assert_eq!(inbox.len(), unrelated.len() + 1);
    assert!(inbox.iter().any(|message| message.id == other_sender));
    assert!(
        unrelated
            .iter()
            .all(|id| inbox.iter().any(|message| message.id == *id))
    );
    assert_eq!(
        store.notifications("friend", NOW)[0].id,
        other_recipient
    );
    let ready = store.take_deck_deliveries(NOW + PUSH_LEASE_MS);
    assert_eq!(ready.len(), unrelated.len() + 2);
    assert!(
        ready
            .iter()
            .all(|delivery| ![selected, retry, sent].contains(&delivery.notification.id))
    );
    store
        .set_incoming_settings("hill", &incoming(true, &[]))
        .unwrap();
    assert!(!store.begin_push(retry, NOW + PUSH_LEASE_MS));
    assert_eq!(
        store.notifications("hill", NOW).len(),
        unrelated.len() + 1
    );
}

#[test]
fn activity_respects_completion_mutes_and_does_not_restore_cancelled_history() {
    let mut store = Store::new();
    queue_kind(&mut store, "hill", "cerro", "completion", NOW);
    let allowed = queue_kind(&mut store, "hill", "friend", "completion", NOW);
    let message = queue_kind(&mut store, "hill", "cerro", "message", NOW);
    store
        .set_incoming_settings("hill", &incoming(true, &["cerro"]))
        .unwrap();
    let activity = store.activity("hill", NOW, 30, None, 1);
    assert_eq!(activity.unread_count, 2);
    assert_eq!(activity.items[0].id, message);
    let older = store
        .activity("hill", NOW, 30, activity.next_before, 10);
    assert_eq!(older.items.len(), 1);
    assert_eq!(older.items[0].id, allowed);
    store
        .set_incoming_settings("hill", &incoming(false, &[]))
        .unwrap();
    store
        .set_incoming_settings("hill", &incoming(true, &[]))
        .unwrap();
    let activity = store.activity("hill", NOW, 30, None, 10);
    assert_eq!(activity.unread_count, 1);
    assert_eq!(activity.items.len(), 1);
    assert_eq!(activity.items[0].id, message);
}

#[test]
fn global_completion_opt_out_cancels_leases_and_keeps_sender_choices_for_future() {
    let mut store = Store::new();
    let leased = queue_kind(&mut store, "hill", "friend", "completion", NOW);
    let selected = queue_kind(&mut store, "hill", "other", "completion", NOW);
    let message = queue_kind(&mut store, "hill", "friend", "message", NOW);
    let other_recipient = queue_kind(&mut store, "friend", "cerro", "completion", NOW);
    assert!(store.begin_push(leased, NOW));
    store
        .set_incoming_settings("hill", &incoming(false, &["cerro"]))
        .unwrap();
    // A response from a previously leased request must not resurrect retries.
    store.finish_push(leased, false, NOW).unwrap();
    assert!(!store.begin_push(selected, NOW));
    let during_opt_out = queue_kind(&mut store, "hill", "future_sender", "completion", NOW);
    assert_eq!(store.notifications("hill", NOW).len(), 1);
    assert_eq!(store.notifications("hill", NOW)[0].id, message);
    assert_eq!(
        store.notifications("friend", NOW)[0].id,
        other_recipient
    );
    let mut settings = store.incoming_settings("hill");
    settings.enabled = true;
    store.set_incoming_settings("hill", &settings).unwrap();
    assert_eq!(settings.muted_senders, ["cerro"]);
    for id in [leased, selected, during_opt_out] {
        assert!(!store.begin_push(id, NOW + PUSH_LEASE_MS));
    }
    let muted = queue_kind(&mut store, "hill", "cerro", "completion", NOW);
    let allowed = queue_kind(&mut store, "hill", "friend", "completion", NOW);
    assert!(!store.begin_push(muted, NOW));
    assert!(store.begin_push(allowed, NOW));
    assert_eq!(store.notifications("hill", NOW).len(), 2);
    store
        .set_incoming_settings("hill", &incoming(true, &[]))
        .unwrap();
    assert_eq!(store.notifications("hill", NOW).len(), 2);
}

#[test]
fn incoming_filter_precedes_grouping_and_counts_and_consumes_suppressed_completions() {
    let mut store = completion_fixture(&[
        ("1", "Spanish", &["hill", "parent_only", "all_off", "other"]),
        ("2", "Spanish::Verbs", &["hill", "all_off", "other"]),
    ]);
    store
        .set_incoming_settings("hill", &incoming(true, &["cerro"]))
        .unwrap();
    store
        .set_incoming_settings("parent_only", &incoming(true, &["friend"]))
        .unwrap();
    store
        .set_incoming_settings("all_off", &incoming(false, &["friend"]))
        .unwrap();
    let mut snapshots = [
        named_snapshot("1", "Spanish", 0, 4, DAY),
        named_snapshot("2", "Spanish::Verbs", 0, 4, DAY),
    ];
    assert_eq!(
        record_completions(&mut store, &snapshots),
        [("Spanish".into(), 1), ("Spanish::Verbs".into(), 1),]
    );
    assert_completion_inbox(&store, "hill", &[]);
    assert_completion_inbox(&store, "all_off", &[]);
    assert_completion_inbox(&store, "parent_only", &["Spanish"]);
    assert_completion_inbox(&store, "other", &["Spanish::Verbs"]);
    assert_eq!(
        store.decks("cerro")[0].recipients,
        ["all_off", "hill", "other", "parent_only"]
    );
    store
        .set_incoming_settings("hill", &incoming(true, &[]))
        .unwrap();
    store
        .set_incoming_settings("all_off", &incoming(true, &["friend"]))
        .unwrap();
    assert!(record_completions(&mut store, &snapshots).is_empty());
    let mut store = reopened(store);
    assert!(record_completions(&mut store, &snapshots).is_empty());
    for snapshot in &mut snapshots {
        snapshot.day += 1;
    }
    let announcements = store
        .record_decks(
            "cerro",
            "Cerro",
            &snapshots,
            Clock::default(),
            false,
            NOW + 86_400_000,
        );
    assert_eq!(announcements.len(), 2);
    assert_eq!(announcements[0].recipients, 1);
    assert_eq!(announcements[1].recipients, 3);
    assert_eq!(
        store.notifications("hill", NOW + 86_400_000).len(),
        1
    );
    assert_eq!(
        store
            .notifications("all_off", NOW + 86_400_000)
            .len(),
        1
    );
}

#[test]
fn cancelled_completions_do_not_fill_the_visible_inbox_limit() {
    let mut store = Store::new();
    let visible = queue_kind(&mut store, "hill", "cerro", "reply", NOW);
    for _ in 0..501 {
        queue_kind(&mut store, "hill", "cerro", "completion", NOW);
    }
    store
        .set_incoming_settings("hill", &incoming(true, &["cerro"]))
        .unwrap();
    assert_eq!(store.notifications("hill", NOW).len(), 1);
    assert_eq!(store.notifications("hill", NOW)[0].id, visible);
    store
        .set_incoming_settings("hill", &incoming(true, &[]))
        .unwrap();
    assert_eq!(store.notifications("hill", NOW)[0].id, visible);
}

#[test]
fn inbox_and_pushes_recheck_preferences_even_without_cancellation_flags() {
    let mut store = Store::new();
    let muted = queue_kind(&mut store, "hill", "cerro", "completion", NOW);
    let global = queue_kind(&mut store, "friend", "cerro", "completion", NOW);
    let visible = queue_kind(&mut store, "hill", "other", "completion", NOW);
    store.muted_senders.push(("hill".into(), "cerro".into()));
    store.incoming_settings.push(("friend".into(), false));
    assert_eq!(store.notifications("hill", NOW)[0].id, visible);
    assert_eq!(store.notifications("hill", NOW).len(), 1);
    assert!(store.notifications("friend", NOW).is_empty());
    let batch = store.take_deck_deliveries(NOW);
    assert_eq!(batch.len(), 1);
    assert_eq!(batch[0].notification.id, visible);
    assert!(!store.begin_push(muted, NOW));
    assert!(!store.begin_push(global, NOW));
    assert!(store.begin_push(visible, NOW));
}

#[test]
fn taking_a_delivery_does_not_mark_an_unconfirmed_push_delivered() {
    let mut store = Store::new();
    let id = store
        .send(
            &Outgoing {
                to: "hill",
                from: "",
                title: "Hello",
                body: "Try again",
                kind: "message",
            },
            DAY,
            NOW,
        );
    assert_eq!(store.take_deck_deliveries(NOW).len(), 1);
    let pushed: bool = store.notifications.iter().find(|row| row.id == id).unwrap().pushed;
    assert!(!pushed, "selecting a message is not confirmation from ntfy");
}

#[test]
fn a_backlogged_recipient_does_not_hide_other_recipients() {
    let mut store = Store::new();
    for _ in 0..101 {
        store
            .send(
                &Outgoing {
                    to: "hill",
                    from: "",
                    title: "Queued",
                    body: "Waiting",
                    kind: "message",
                },
                DAY,
                NOW,
            );
    }
    let friend = store
        .send(
            &Outgoing {
                to: "friend",
                from: "",
                title: "Ready",
                body: "Deliver me",
                kind: "message",
            },
            DAY,
            NOW,
        );
    let batch = store.take_deck_deliveries(NOW);
    assert!(
        batch
            .iter()
            .take(2)
            .any(|delivery| delivery.notification.id == friend),
        "take turns between recipients before draining a large backlog"
    );
    assert!(store.begin_push(batch[0].notification.id, NOW));
    assert_eq!(
        store.take_deck_deliveries(NOW)[0].notification.id,
        friend,
        "a new tick favors recipients that have not had an attempt yet"
    );
}

#[test]
fn failed_pushes_back_off_survive_restart_and_stop_after_success() {
    let mut store = Store::new();
    let id = store
        .send(
            &Outgoing {
                to: "hill",
                from: "",
                title: "Retry",
                body: "Keep me",
                kind: "message",
            },
            DAY,
            NOW,
        );
    let mut at = NOW;
    for attempt in 0..9 {
        assert_eq!(
            store.take_deck_deliveries(at)[0].notification.id,
            id
        );
        assert!(store.begin_push(id, at));
        assert!(
            !store.begin_push(id, at),
            "another worker cannot claim the same attempt"
        );
        store.finish_push(id, false, at).unwrap();
        let delay = (20_000 * (1_i64 << attempt.min(6))).min(15 * 60_000);
        assert!(
            store
                .take_deck_deliveries(at + delay - 1)
                .is_empty()
        );
        store = reopened(store);
        at += delay;
    }
    assert!(store.begin_push(id, at));
    store.finish_push(id, true, at).unwrap();
    assert!(store.take_deck_deliveries(at + 900_000).is_empty());
    assert_eq!(
        store.notifications("hill", at).len(),
        1,
        "retry never creates a new inbox notification"
    );
    assert!(
        store
            .take_deck_deliveries(NOW + INBOX_AGE_MS + 1)
            .is_empty()
    );
    assert_eq!(
        store.notifications.len(),
        1,
        "delivery expiration retains durable Activity history"
    );
    assert!(
        store
            .take_deck_deliveries(NOW + ACTIVITY_AGE_MS + 1)
            .is_empty()
    );
    assert!(
        store
            .activity("hill", NOW + ACTIVITY_AGE_MS + 1, 90, None, 100)
            .items
            .is_empty()
    );
}

#[test]
fn nudge_opt_out_cancels_selected_and_leased_pushes_only_for_that_user() {
    let mut store = Store::new();
    store.set_nudges("hill", true);
    store.set_nudges("friend", true);
    let mut ids = Vec::new();
    for (user, kind) in [
        ("hill", "nudge"),
        ("hill", "nudge"),
        ("hill", "message"),
        ("hill", "completion"),
        ("friend", "nudge"),
    ] {
        ids.push(
            store
                .send(
                    &Outgoing {
                        to: user,
                        from: "",
                        title: "Notification",
                        body: "Keep this in the inbox",
                        kind,
                    },
                    DAY,
                    NOW,
                ),
        );
    }
    assert_eq!(store.take_deck_deliveries(NOW).len(), 5);
    assert!(store.begin_push(ids[1], NOW));
    store.set_nudges("hill", false);
    store.finish_push(ids[1], false, NOW).unwrap();
    store.set_nudges("hill", true);
    assert!(
        !store.begin_push(ids[0], NOW),
        "a batch selected before opt-out must not send a cancelled nudge"
    );
    let mut store = reopened(store);
    let mut ready: Vec<_> = store
        .take_deck_deliveries(NOW + PUSH_LEASE_MS)
        .into_iter()
        .map(|delivery| delivery.notification.id)
        .collect();
    ready.sort();
    assert_eq!(ready, ids[2..]);
    assert_eq!(store.notifications("hill", NOW).len(), 4);
    assert_eq!(store.notifications("friend", NOW).len(), 1);
}

#[test]
fn old_pending_nudges_are_cancelled_when_the_recipient_has_opted_out() {
    let mut store = Store::new();
    for user in ["hill", "friend"] {
        store.set_nudges(user, true);
        store
            .send(
                &Outgoing {
                    to: user,
                    from: "",
                    title: "Old nudge",
                    body: "Already queued before the upgrade",
                    kind: "nudge",
                },
                DAY,
                NOW,
            );
    }
    // An opt-out that left the delivery pending.
    for row in store.player_settings.iter_mut() {
        if row.0 == "hill" {
            row.1 = false;
        }
    }
    let mut store = reopened(store);
    let ready = store.take_deck_deliveries(NOW);
    assert_eq!(ready.len(), 1, "old opted-out nudges must not be retried");
    assert_eq!(ready[0].user, "friend");
    store.set_nudges("hill", true);
    assert_eq!(store.take_deck_deliveries(NOW).len(), 1);
    assert_eq!(store.notifications("hill", NOW).len(), 1);
}

#[test]
fn interrupted_pushes_retry_after_the_lease_and_leave_other_messages_available() {
    let mut store = Store::new();
    let first = store
        .send(
            &Outgoing {
                to: "hill",
                from: "",
                title: "First",
                body: "Retry",
                kind: "message",
            },
            DAY,
            NOW,
        );
    let second = store
        .send(
            &Outgoing {
                to: "friend",
                from: "",
                title: "Second",
                body: "Ready",
                kind: "message",
            },
            DAY,
            NOW,
        );
    assert!(store.begin_push(first, NOW));
    let mut store = reopened(store);
    let ready = store.take_deck_deliveries(NOW + PUSH_LEASE_MS - 1);
    assert_eq!(ready.len(), 1);
    assert_eq!(ready[0].notification.id, second);
    assert_eq!(
        store
            .take_deck_deliveries(NOW + PUSH_LEASE_MS)
            .len(),
        2
    );
}

#[test]
fn seen_keys_go_with_notifications_and_push_only_stays_private() {
    let mut store = Store::new();
    let event = Event {
        key: "level:2".into(),
        title: "Level 2".into(),
        body: "Well done".into(),
    };
    let message = Outgoing {
        to: "hill",
        from: "",
        title: "Nudge",
        body: "Almost there",
        kind: "nudge",
    };
    for _ in 0..2 {
        store
            .queue_events("hill", std::slice::from_ref(&event), DAY, NOW, true);
        store
            .send_once(&message, "nudge:today", DAY, NOW, false);
    }
    let inbox = store.notifications("hill", NOW);
    assert_eq!(inbox.len(), 1);
    assert_eq!(inbox[0].kind, "nudge");
    assert_eq!(store.take_deck_deliveries(NOW).len(), 2);
    store
        .queue_events("friend", &[event], DAY, NOW, false);
    assert!(store.notifications("friend", NOW).is_empty());
    assert!(
        !store.mark_seen("friend", "level:2"),
        "accounts without ntfy keep their silent event baseline"
    );
}

fn reopened(store: Store) -> Store {
    let mut store = store;
    store.retire_nudges();
    store
}

fn snapshot(id: &str, remaining: u64, reviewed_today: u64, day: i64) -> Snapshot {
    Snapshot {
        id: id.into(),
        name: "Spanish".into(),
        remaining,
        reviewed_today,
        day,
    }
}

fn save(store: &mut Store, deck: Snapshot, silent: bool, at: i64) {
    store
        .record_decks("cerro", "Cerro", &[deck], Clock::default(), silent, at);
}

fn enable(store: &mut Store, id: &str, recipients: &[&str]) {
    store
        .set_deck_preferences(
            "cerro",
            &[Preference {
                id: id.into(),
                enabled: true,
                recipients: recipients.iter().map(|r| (*r).into()).collect(),
            }],
        )
        .unwrap();
}

fn named_snapshot(
    id: &str,
    name: &str,
    remaining: u64,
    reviewed_today: u64,
    day: i64,
) -> Snapshot {
    Snapshot {
        name: name.into(),
        ..snapshot(id, remaining, reviewed_today, day)
    }
}

fn completion_fixture(decks: &[(&str, &str, &[&str])]) -> Store {
    let mut store = Store::new();
    for (id, name, recipients) in decks {
        save(&mut store, named_snapshot(id, name, 1, 0, DAY), false, NOW);
        if !recipients.is_empty() {
            enable(&mut store, id, recipients);
        }
    }
    store
}

fn record_completions(store: &mut Store, snapshots: &[Snapshot]) -> Vec<(String, usize)> {
    let mut announcements: Vec<_> = store
        .record_decks("cerro", "Cerro", snapshots, Clock::default(), false, NOW)
        .into_iter()
        .map(|announcement| (announcement.deck, announcement.recipients))
        .collect();
    announcements.sort();
    announcements
}

fn assert_completion_inbox(store: &Store, recipient: &str, decks: &[&str]) {
    let mut bodies: Vec<_> = store
        .notifications(recipient, NOW)
        .into_iter()
        .map(|notification| {
            assert_eq!(notification.kind, "completion");
            assert_eq!(notification.sender, "cerro");
            notification.body
        })
        .collect();
    bodies.sort();
    let mut expected: Vec<_> = decks
        .iter()
        .map(|deck| format!("Cerro has finished their {deck} studies for today."))
        .collect();
    expected.sort();
    assert_eq!(bodies, expected, "completion inbox for {recipient}");
}

#[test]
fn equivalent_parent_and_child_notify_each_recipient_only_once() {
    let mut store = completion_fixture(&[
        ("1", "Spanish", &["hill", "friend"]),
        ("2", "Spanish::Verbs", &["hill", "friend"]),
    ]);
    let snapshots = [
        named_snapshot("1", "Spanish", 0, 4, DAY),
        named_snapshot("2", "Spanish::Verbs", 0, 4, DAY),
    ];
    assert_eq!(
        record_completions(&mut store, &snapshots),
        [("Spanish::Verbs".into(), 2)]
    );
    for recipient in ["hill", "friend"] {
        assert_completion_inbox(&store, recipient, &["Spanish::Verbs"]);
    }
}

#[test]
fn equivalent_nested_completions_keep_the_deepest_deck_in_every_upload_order() {
    for order in [
        [0, 1, 2],
        [0, 2, 1],
        [1, 0, 2],
        [1, 2, 0],
        [2, 0, 1],
        [2, 1, 0],
    ] {
        let names = ["Spanish", "Spanish::Verbs", "Spanish::Verbs::Present"];
        let mut store = completion_fixture(&[
            ("1", names[0], &["hill"]),
            ("2", names[1], &["hill"]),
            ("3", names[2], &["hill"]),
        ]);
        let snapshots: Vec<_> = order
            .into_iter()
            .map(|index| named_snapshot(&(index + 1).to_string(), names[index], 0, 4, DAY))
            .collect();
        assert_eq!(
            record_completions(&mut store, &snapshots),
            [(names[2].into(), 1)],
            "upload order {order:?}"
        );
        assert_completion_inbox(&store, "hill", &[names[2]]);
    }
}

#[test]
fn nested_completion_coalescing_respects_each_decks_recipient_choices() {
    let mut store = completion_fixture(&[
        ("1", "Spanish", &["hill", "parent_only"]),
        ("2", "Spanish::Verbs", &["hill", "child_only"]),
        ("3", "Spanish::Verbs::Present", &["grandchild_only"]),
    ]);
    let snapshots = [
        named_snapshot("1", "Spanish", 0, 4, DAY),
        named_snapshot("2", "Spanish::Verbs", 0, 4, DAY),
        named_snapshot("3", "Spanish::Verbs::Present", 0, 4, DAY),
    ];
    assert_eq!(
        record_completions(&mut store, &snapshots),
        [
            ("Spanish".into(), 1),
            ("Spanish::Verbs".into(), 2),
            ("Spanish::Verbs::Present".into(), 1),
        ]
    );
    assert_completion_inbox(&store, "hill", &["Spanish::Verbs"]);
    assert_completion_inbox(&store, "parent_only", &["Spanish"]);
    assert_completion_inbox(&store, "child_only", &["Spanish::Verbs"]);
    assert_completion_inbox(&store, "grandchild_only", &["Spanish::Verbs::Present"]);
    assert_completion_inbox(&store, "cerro", &[]);
    assert_completion_inbox(&store, "stranger", &[]);
}

#[test]
fn a_parent_with_additional_studied_cards_keeps_its_completion() {
    let mut store = completion_fixture(&[
        ("1", "Spanish", &["hill"]),
        ("2", "Spanish::Verbs", &["hill"]),
    ]);
    assert_eq!(
        record_completions(
            &mut store,
            &[
                named_snapshot("1", "Spanish", 0, 5, DAY),
                named_snapshot("2", "Spanish::Verbs", 0, 4, DAY),
            ]
        ),
        [("Spanish".into(), 1), ("Spanish::Verbs".into(), 1)]
    );
    assert_completion_inbox(&store, "hill", &["Spanish", "Spanish::Verbs"]);
}

#[test]
fn a_child_that_cannot_announce_does_not_suppress_the_parent() {
    for (enabled, remaining, reviewed, day) in [
        (false, 0, 4, DAY),
        (true, 1, 4, DAY),
        (true, 0, 0, DAY),
        (true, 0, 4, DAY - 1),
        (true, 0, 4, DAY + 1),
    ] {
        let mut store = completion_fixture(&[("1", "Spanish", &["hill"]), ("2", "Spanish::Verbs", &[])]);
        if enabled {
            enable(&mut store, "2", &["hill"]);
        }
        assert_eq!(
            record_completions(
                &mut store,
                &[
                    named_snapshot("1", "Spanish", 0, 4, DAY),
                    named_snapshot("2", "Spanish::Verbs", remaining, reviewed, day),
                ]
            ),
            [("Spanish".into(), 1)],
            "child enabled={enabled}, remaining={remaining}, reviewed={reviewed}, day={day}"
        );
        assert_completion_inbox(&store, "hill", &["Spanish"]);
    }
}

#[test]
fn previously_consumed_child_completions_do_not_suppress_a_fresh_parent() {
    for silent in [false, true] {
        let mut store = completion_fixture(&[
            ("1", "Spanish", &["hill"]),
            ("2", "Spanish::Verbs", &["hill"]),
        ]);
        save(
            &mut store,
            named_snapshot("2", "Spanish::Verbs", 0, 4, DAY),
            silent,
            NOW,
        );
        assert_eq!(
            record_completions(
                &mut store,
                &[
                    named_snapshot("1", "Spanish", 0, 4, DAY),
                    named_snapshot("2", "Spanish::Verbs", 0, 4, DAY),
                ]
            ),
            [("Spanish".into(), 1)]
        );
        let expected = if silent {
            vec!["Spanish"]
        } else {
            vec!["Spanish", "Spanish::Verbs"]
        };
        assert_completion_inbox(&store, "hill", &expected);
    }
}

#[test]
fn unrelated_names_prefixes_and_sibling_decks_keep_separate_completions() {
    for names in [
        ["Spanish", "Spanish 2"],
        ["Spanish", "Spanish:Verbs"],
        ["Spanish", "Spanishish::Verbs"],
        ["Spanish::Verbs", "Spanish::Nouns"],
        ["Spanish", "Geography::Spanish"],
    ] {
        let mut store = completion_fixture(&[("1", names[0], &["hill"]), ("2", names[1], &["hill"])]);
        let announcements = record_completions(
            &mut store,
            &[
                named_snapshot("1", names[0], 0, 4, DAY),
                named_snapshot("2", names[1], 0, 4, DAY),
            ],
        );
        assert_eq!(announcements.len(), 2, "deck names {names:?}");
        assert_completion_inbox(&store, "hill", &names);
    }
}

#[test]
fn overlapping_colons_follow_the_clients_left_to_right_hierarchy_boundaries() {
    let mut store = completion_fixture(&[
        ("1", "Spanish", &["hill"]),
        ("2", "Spanish:", &["hill"]),
        ("3", "Spanish:::Verbs", &["hill"]),
    ]);
    // The clients split "Spanish:::Verbs" into "Spanish" and ":Verbs".
    // "Spanish:" is therefore a separate deck, not this child's parent.
    assert_eq!(
        record_completions(
            &mut store,
            &[
                named_snapshot("1", "Spanish", 0, 4, DAY),
                named_snapshot("2", "Spanish:", 0, 4, DAY),
                named_snapshot("3", "Spanish:::Verbs", 0, 4, DAY),
            ]
        ),
        [("Spanish:".into(), 1), ("Spanish:::Verbs".into(), 1)]
    );
    assert_completion_inbox(&store, "hill", &["Spanish:", "Spanish:::Verbs"]);
}

#[test]
fn suppressed_parent_completions_stay_consumed_after_replay_and_restart() {
    let mut store = completion_fixture(&[
        ("1", "Spanish", &["hill"]),
        ("2", "Spanish::Verbs", &["hill"]),
    ]);
    let snapshots = [
        named_snapshot("1", "Spanish", 0, 4, DAY),
        named_snapshot("2", "Spanish::Verbs", 0, 4, DAY),
    ];
    assert_eq!(
        record_completions(&mut store, &snapshots),
        [("Spanish::Verbs".into(), 1)]
    );
    assert!(record_completions(&mut store, &snapshots).is_empty());
    let mut store = reopened(store);
    assert!(record_completions(&mut store, &snapshots[..1]).is_empty());
    assert!(record_completions(&mut store, &snapshots).is_empty());
    assert_completion_inbox(&store, "hill", &["Spanish::Verbs"]);
    assert_eq!(store.decks("cerro").len(), 2);
}

#[test]
fn partial_upload_keeps_a_parent_completion_and_the_existing_deck_catalog() {
    let mut store = completion_fixture(&[
        ("1", "Spanish", &["hill"]),
        ("2", "Spanish::Verbs", &["hill"]),
    ]);
    assert_eq!(
        record_completions(&mut store, &[named_snapshot("1", "Spanish", 0, 4, DAY)]),
        [("Spanish".into(), 1)]
    );
    assert_eq!(
        record_completions(
            &mut store,
            &[named_snapshot("2", "Spanish::Verbs", 0, 4, DAY)]
        ),
        [("Spanish::Verbs".into(), 1)]
    );
    let decks = store.decks("cerro");
    assert_eq!(decks.len(), 2);
    assert!(
        decks
            .iter()
            .all(|deck| deck.enabled && deck.recipients == ["hill"])
    );
    assert_completion_inbox(&store, "hill", &["Spanish", "Spanish::Verbs"]);
}

#[test]
fn an_inbox_from_before_replies_keeps_working() {
    let mut store = Store::new();
    store.send(
        &Outgoing {
            to: "hill",
            from: "",
            title: "Deck complete",
            body: "Cerro finished Spanish.",
            kind: "message",
        },
        20000,
        1_728_000_000_000,
    );
    let inbox = store.notifications("hill", 1_728_000_000_000);
    assert_eq!(inbox.len(), 1);
    assert_eq!(inbox[0].sender, "");
    assert!(!inbox[0].replied);
    assert!(
        store
            .reply("hill", "Hill", inbox[0].id, "Good job!", NOW)
            .is_none(),
        "nobody is recorded as the sender of a pre-reply notification"
    );
}

#[test]
fn full_catalog_removes_deleted_decks_and_their_recipients() {
    let mut store = Store::new();
    save(&mut store, snapshot("1", 2, 0, DAY), false, NOW);
    save(&mut store, snapshot("2", 2, 0, DAY), false, NOW);
    enable(&mut store, "2", &["hill"]);
    store
        .prune_decks("cerro", &[snapshot("1", 2, 0, DAY)]);
    let decks = store.decks("cerro");
    assert_eq!(decks.len(), 1);
    assert_eq!(decks[0].id, "1");
    save(&mut store, snapshot("2", 2, 0, DAY), false, NOW);
    assert!(
        store
            .decks("cerro")
            .iter()
            .all(|d| !d.enabled && d.recipients.is_empty())
    );
}

#[test]
fn completion_is_private_once_per_deck_day_and_survives_restart() {
    let mut store = Store::new();
    save(&mut store, snapshot("1", 2, 0, DAY), false, NOW);
    save(&mut store, snapshot("2", 2, 0, DAY), false, NOW);
    enable(&mut store, "1", &["hill", "friend"]);
    enable(&mut store, "2", &["hill"]);
    save(&mut store, snapshot("1", 0, 4, DAY), false, NOW);
    save(&mut store, snapshot("1", 0, 4, DAY), false, NOW);
    save(&mut store, snapshot("1", 1, 3, DAY), false, NOW);
    save(&mut store, snapshot("1", 0, 4, DAY), false, NOW);
    assert_eq!(store.notifications("hill", NOW).len(), 1);
    assert_eq!(store.notifications("friend", NOW).len(), 1);
    assert!(store.notifications("cerro", NOW).is_empty());
    assert!(store.notifications("stranger", NOW).is_empty());
    assert_eq!(
        store.notifications("hill", NOW)[0].body,
        "Cerro has finished their Spanish studies for today."
    );
    let mut store = reopened(store);
    assert!(store.decks("cerro")[0].enabled);
    save(&mut store, snapshot("1", 0, 5, DAY), false, NOW);
    save(&mut store, snapshot("2", 0, 3, DAY), false, NOW);
    save(
        &mut store,
        snapshot("1", 0, 4, DAY + 1),
        false,
        NOW + 86_400_000,
    );
    assert_eq!(
        store.notifications("hill", NOW + 86_400_000).len(),
        3
    );
    assert_eq!(
        store
            .notifications("friend", NOW + 86_400_000)
            .len(),
        2
    );
    let deliveries = store.take_deck_deliveries(NOW + 86_400_000);
    assert_eq!(deliveries.len(), 5);
    for delivery in deliveries {
        assert!(
            store
                .begin_push(delivery.notification.id, NOW + 86_400_000)
        );
        store
            .finish_push(delivery.notification.id, true, NOW + 86_400_000)
            .unwrap();
    }
    assert!(
        store
            .take_deck_deliveries(NOW + 86_400_000)
            .is_empty()
    );
    assert_eq!(
        store.notifications("hill", NOW + 86_400_000).len(),
        3
    );
    let mut store = reopened(store);
    assert!(
        store
            .take_deck_deliveries(NOW + 86_400_000)
            .is_empty()
    );
}

#[test]
fn silent_disabled_empty_and_old_snapshots_never_publish_later() {
    let mut store = Store::new();
    save(&mut store, snapshot("1", 0, 3, DAY), false, NOW);
    enable(&mut store, "1", &["hill"]);
    save(&mut store, snapshot("1", 0, 3, DAY), false, NOW);
    save(&mut store, snapshot("2", 1, 0, DAY), false, NOW);
    enable(&mut store, "2", &["hill"]);
    save(&mut store, snapshot("2", 0, 3, DAY), true, NOW);
    save(&mut store, snapshot("2", 0, 3, DAY), false, NOW);
    save(&mut store, snapshot("3", 1, 0, DAY), false, NOW);
    enable(&mut store, "3", &["hill"]);
    for (remaining, reviewed, day) in
        [(1, 3, DAY), (0, 0, DAY), (0, 3, DAY - 1), (0, 3, DAY + 1)]
    {
        save(
            &mut store,
            snapshot("3", remaining, reviewed, day),
            false,
            NOW,
        );
    }
    assert!(store.notifications("hill", NOW).is_empty());
    save(&mut store, snapshot("3", 0, 3, DAY), false, NOW);
    assert_eq!(store.notifications("hill", NOW).len(), 1);
    assert!(
        store
            .notifications("hill", NOW + INBOX_AGE_MS + 1)
            .is_empty()
    );
    assert!(
        store
            .take_deck_deliveries(NOW + INBOX_AGE_MS + 1)
            .is_empty()
    );
}

#[test]
fn completion_uses_owner_clock_rollover_and_deck_identity() {
    let mut store = Store::new();
    let clock = Clock {
        offset_west_min: -120,
        rollover_hour: 4,
    };
    let before_rollover = DAY * 86_400_000 + 3_600_000;
    store
        .record_decks(
            "cerro",
            "Cerro",
            &[snapshot("1", 1, 0, DAY - 1)],
            clock,
            false,
            before_rollover,
        );
    enable(&mut store, "1", &["hill"]);
    store
        .record_decks(
            "other",
            "Other",
            &[snapshot("1", 0, 3, DAY - 1)],
            clock,
            false,
            before_rollover,
        );
    assert!(
        store
            .notifications("hill", before_rollover)
            .is_empty()
    );
    for (at, day) in [
        (before_rollover, DAY - 1),
        (before_rollover + 2 * 3_600_000, DAY),
    ] {
        let mut deck = snapshot("1", 0, 3, day);
        deck.name = "Spanish::Verbs".into();
        store
            .record_decks("cerro", "Cerro", &[deck], clock, false, at);
    }
    let inbox = store.notifications("hill", NOW);
    assert_eq!(inbox.len(), 2);
    assert_eq!(inbox[0].day, DAY - 1);
    assert_eq!(inbox[1].day, DAY);
    assert_eq!(store.decks("cerro")[0].name, "Spanish::Verbs");
}

#[test]
fn validates_snapshot_shape_clock_and_recipient_choices() {
    let good = snapshot("1", 0, 1, DAY);
    assert!(valid_snapshots(std::slice::from_ref(&good)));
    assert!(!valid_snapshots(&[good.clone(), good.clone()]));
    assert!(!valid_snapshots(&[Snapshot {
        name: "\n".into(),
        ..good.clone()
    }]));
    assert!(!valid_snapshots(&[Snapshot {
        remaining: u64::MAX,
        ..good.clone()
    }]));
    assert!(!valid_clock(Clock {
        offset_west_min: i64::MAX,
        rollover_hour: 4
    }));
    assert!(!valid_clock(Clock {
        offset_west_min: 0,
        rollover_hour: 24
    }));
    let decks = vec![Deck {
        id: "1".into(),
        name: "Spanish".into(),
        enabled: false,
        recipients: vec![],
    }];
    let recipients = vec![Recipient {
        user: "hill".into(),
        display: "Hill".into(),
    }];
    for users in [
        vec![],
        vec!["stranger"],
        vec!["cerro"],
        vec!["hill", "hill"],
    ] {
        assert!(!valid_preferences(
            &[Preference {
                id: "1".into(),
                enabled: true,
                recipients: users.into_iter().map(String::from).collect()
            }],
            &decks,
            &recipients
        ));
    }
    assert!(valid_preferences(
        &[Preference {
            id: "1".into(),
            enabled: true,
            recipients: vec!["hill".into()]
        }],
        &decks,
        &recipients
    ));
}
