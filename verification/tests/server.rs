use ankiquest::boards::{ahead_of, is_period, leaderboard, podium, records, RecordBoard, PODIUM};
use ankiquest::calendar::Clock;
use ankiquest::competition::{
    asked_month, begins_by, check_start_date, refresh_due, valid_month, StartError, REFRESH_MS,
};
use ankiquest::config::{
    authorized, challenge_recipients, default_addr, default_state, default_week_rollover_hour,
    default_week_timezone, display_of, is_configured, participants, player_names,
    push_destination, Config, UserConfig,
};
use ankiquest::decks::{IncomingSettings, Preference, SettingsUpdate, Snapshot, MAX_DECKS, MAX_MESSAGE};
use ankiquest::delivery::{
    click_url, current_inbox, deliver, push_url, queue_for, streak_warning_body, DeliveryGuard, Reminder, Step,
    PUSH_TIMEOUT_NS,
};
use ankiquest::freezes::{FreezePolicy, FreezePreference};
use ankiquest::game::{compute, Profile, Week};
use ankiquest::inbox::Outgoing;
use ankiquest::preferences::{
    activity_page, answer, deck_settings, incoming_preferences, mark_read, set_deck_subscriptions,
    set_decks, set_incoming_preferences, Refusal,
};
use ankiquest::quests::Review;
use ankiquest::records::Records;
use ankiquest::store::Store;
use ankiquest::uploads::{
    check_upload, checked_preview, consume_events, freeze_settings, merge, preview, upload, Player, Upload,
    MAX_PENDING,
};

const DAY: i64 = 20_000;
const NOW: i64 = DAY * 86_400_000 + 12 * 3_600_000;
const PLENTY: u64 = 60_000_000_000;

fn user(display: Option<&str>, token: Option<&str>, topic: Option<&str>) -> UserConfig {
    UserConfig {
        display: display.map(str::to_string),
        ntfy_topic: topic.map(str::to_string),
        token: token.map(str::to_string),
    }
}

fn fixture() -> (Config, Store) {
    let config = Config {
        ntfy: None,
        users: vec![
            ("cerro".into(), user(Some("Cerro"), Some("cerro-secret"), None)),
            ("friend".into(), user(None, Some("friend-secret"), None)),
            ("hill".into(), user(Some("Hill"), Some("hill-secret"), None)),
        ],
    };
    (config, Store::new())
}

fn push_fixture(topics: &[(&str, &str)]) -> (Config, Store) {
    let (mut config, store) = fixture();
    config.ntfy = Some("http://push.example/".into());
    for (name, topic) in topics {
        for (key, entry) in config.users.iter_mut() {
            if key == name {
                entry.ntfy_topic = Some((*topic).into());
            }
        }
    }
    (config, store)
}

fn sample_upload(remaining: u64, silent: bool) -> Upload {
    Upload {
        reviews: vec![],
        deleted: vec![],
        clock: Clock::default(),
        silent,
        catalog: false,
        decks: Some(vec![Snapshot {
            id: "1".into(),
            name: "Spanish".into(),
            remaining,
            reviewed_today: 3,
            day: Clock::default().day(NOW),
        }]),
    }
}

fn preferences(recipients: &[&str]) -> SettingsUpdate {
    SettingsUpdate {
        decks: vec![Preference {
            id: "1".into(),
            enabled: true,
            recipients: recipients.iter().map(|r| (*r).into()).collect(),
        }],
        nudges: None,
    }
}

fn studied(count: i64, day: i64) -> Vec<Review> {
    (0..count)
        .map(|index| Review {
            id: day * 86_400_000 + 12 * 3_600_000 + index * 60_000,
            cid: index + 1,
            last_ivl: 30,
            time_ms: 5_000,
            kind: 1,
        })
        .collect()
}

fn shown(name: &str, reviews: &[Review], now: i64) -> Profile {
    compute(name, name, reviews, &Clock::default(), &Week::default(), now)
}

#[test]
fn the_upload_reports_what_it_just_announced_to_the_recipients() {
    let (config, mut store) = fixture();
    let send = |store: &mut Store, body: Upload| {
        upload(&config, store, "cerro", &body, NOW).unwrap().announced
    };
    assert!(send(&mut store, sample_upload(2, false)).is_empty());
    set_decks(&config, &mut store, "cerro", &preferences(&["hill"])).unwrap();
    let announced = send(&mut store, sample_upload(0, false));
    assert_eq!(announced.len(), 1);
    assert_eq!(announced[0].deck, "Spanish");
    assert_eq!(announced[0].recipients, 1);
    assert!(
        send(&mut store, sample_upload(0, false)).is_empty(),
        "a deck is only announced once a day"
    );
}

#[test]
fn upload_preferences_and_inbox_work_together() {
    let (config, mut store) = fixture();
    upload(&config, &mut store, "cerro", &sample_upload(2, false), NOW).unwrap();
    let settings = deck_settings(&config, &store, "cerro");
    assert!(!settings.decks[0].enabled);
    assert_eq!(settings.decks[0].name, "Spanish");
    assert_eq!(
        settings
            .recipients
            .iter()
            .map(|r| r.user.as_str())
            .collect::<Vec<_>>(),
        vec!["friend", "hill"]
    );
    assert_eq!(settings.recipients[1].display, "Hill");
    set_decks(&config, &mut store, "cerro", &preferences(&["hill"])).unwrap();
    for _ in 0..2 {
        upload(&config, &mut store, "cerro", &sample_upload(0, false), NOW).unwrap();
    }
    let inbox = store.notifications("hill", NOW);
    assert_eq!(inbox.len(), 1);
    assert_eq!(
        inbox[0].body,
        "Cerro has finished their Spanish studies for today."
    );
    assert!(inbox[0].created_at <= NOW / 1000);
    assert!(store.notifications("friend", NOW).is_empty());
    assert!(deck_settings(&config, &store, "hill").decks.is_empty());
}

#[test]
fn invalid_updates_are_refused_without_changing_settings() {
    let (config, mut store) = fixture();
    upload(&config, &mut store, "cerro", &sample_upload(2, false), NOW).unwrap();
    for update in [
        preferences(&["cerro"]),
        preferences(&["unknown"]),
        preferences(&[]),
        preferences(&["hill", "hill"]),
        SettingsUpdate {
            decks: vec![Preference {
                id: "missing".into(),
                enabled: false,
                recipients: vec![],
            }],
            nudges: None,
        },
        SettingsUpdate {
            decks: vec![
                Preference {
                    id: "1".into(),
                    enabled: true,
                    recipients: vec!["hill".into()],
                },
                Preference {
                    id: "1".into(),
                    enabled: false,
                    recipients: vec![],
                },
            ],
            nudges: None,
        },
    ] {
        assert!(matches!(
            set_decks(&config, &mut store, "cerro", &update),
            Err(Refusal::BadRequest)
        ));
    }
    let settings = deck_settings(&config, &store, "cerro");
    assert!(!settings.decks[0].enabled);
    assert!(settings.decks[0].recipients.is_empty());

    let mut bad = sample_upload(0, false);
    bad.clock.offset_west_min = i64::MAX;
    assert_eq!(check_upload(&bad), Some(Refusal::BadRequest));
    assert!(matches!(
        upload(&config, &mut store, "cerro", &bad, NOW),
        Err(Refusal::BadRequest)
    ));
    let mut duplicate = sample_upload(0, false);
    let repeated = duplicate.decks.as_ref().unwrap()[0].clone();
    duplicate.decks.as_mut().unwrap().push(repeated);
    assert_eq!(check_upload(&duplicate), Some(Refusal::BadRequest));
    let mut oversized = sample_upload(0, false);
    let deck = oversized.decks.as_ref().unwrap()[0].clone();
    oversized.decks = Some(vec![deck; MAX_DECKS + 1]);
    assert_eq!(check_upload(&oversized), Some(Refusal::TooLarge));
    let mut long = sample_upload(0, false);
    long.deleted = vec![1; MAX_PENDING + 1];
    assert!(matches!(
        upload(&config, &mut store, "cerro", &long, NOW),
        Err(Refusal::TooLarge)
    ));
    assert_eq!(check_upload(&sample_upload(0, false)), None);
}

#[test]
fn legacy_and_silent_uploads_do_not_publish_completion() {
    let (config, mut store) = fixture();
    let legacy = Upload {
        decks: None,
        ..sample_upload(0, false)
    };
    upload(&config, &mut store, "cerro", &legacy, NOW).unwrap();
    upload(&config, &mut store, "cerro", &sample_upload(2, false), NOW).unwrap();
    set_decks(&config, &mut store, "cerro", &preferences(&["hill"])).unwrap();
    upload(&config, &mut store, "cerro", &sample_upload(0, true), NOW).unwrap();
    upload(&config, &mut store, "cerro", &sample_upload(0, false), NOW).unwrap();
    assert!(store.notifications("hill", NOW).is_empty());
}

#[test]
fn a_catalog_upload_removes_deleted_decks() {
    let (config, mut store) = fixture();
    upload(&config, &mut store, "cerro", &sample_upload(2, false), NOW).unwrap();
    assert_eq!(store.decks("cerro").len(), 1);
    let empty = Upload {
        decks: Some(vec![]),
        catalog: true,
        ..sample_upload(0, false)
    };
    upload(&config, &mut store, "cerro", &empty, NOW).unwrap();
    assert!(store.decks("cerro").is_empty());
}

#[test]
fn recipient_choices_require_a_configured_delivery_channel() {
    let (mut config, mut store) = fixture();
    config.ntfy = Some("http://localhost:9999".into());
    config
        .users
        .push(("push-only".into(), user(None, None, Some("friend-topic"))));
    config
        .users
        .push(("empty-token".into(), user(None, Some(""), None)));
    config
        .users
        .push(("display-only".into(), user(None, None, None)));
    config
        .users
        .push(("empty-topic".into(), user(None, None, Some(""))));
    store.upsert("imported", &[], &[], Clock::default());
    let settings = deck_settings(&config, &store, "cerro");
    assert_eq!(
        settings
            .recipients
            .iter()
            .map(|r| r.user.as_str())
            .collect::<Vec<_>>(),
        vec!["friend", "hill", "push-only"]
    );
    assert!(settings.decks.is_empty());
    config.ntfy = None;
    assert_eq!(
        deck_settings(&config, &store, "cerro")
            .recipients
            .iter()
            .map(|r| r.user.as_str())
            .collect::<Vec<_>>(),
        vec!["friend", "hill"]
    );
}

#[test]
fn empty_configured_token_never_authorizes_private_data() {
    let (mut config, _) = fixture();
    assert!(authorized(&config, "cerro", Some("Bearer cerro-secret")));
    assert!(!authorized(&config, "cerro", Some("Bearer hill-secret")));
    assert!(!authorized(&config, "cerro", Some("cerro-secret")));
    assert!(!authorized(&config, "unknown", Some("Bearer cerro-secret")));
    config.users[0].1.token = Some(String::new());
    assert!(!authorized(&config, "cerro", None));
    assert!(!authorized(&config, "cerro", Some("Bearer ")));
    config.users[0].1.token = Some("hill-secret".into());
    for name in ["cerro", "hill"] {
        assert!(
            !authorized(&config, name, Some("Bearer hill-secret")),
            "a shared secret is nobody's"
        );
    }
}

#[test]
fn a_deck_settings_update_keeps_nudges_unless_it_names_them() {
    let (config, mut store) = fixture();
    upload(&config, &mut store, "cerro", &sample_upload(2, false), NOW).unwrap();
    let mut save = |nudges: Option<bool>| {
        let mut update = preferences(&["hill"]);
        update.nudges = nudges;
        set_decks(&config, &mut store, "cerro", &update).unwrap().nudges
    };
    assert!(!save(None), "off until someone asks");
    assert!(save(Some(true)));
    assert!(save(None), "an older client leaves it alone");
    assert!(!save(Some(false)));
    assert!(!deck_settings(&config, &store, "hill").nudges);
}

#[test]
fn a_completion_is_answered_once_and_the_answer_answered_back() {
    let (config, mut store) = fixture();
    upload(&config, &mut store, "cerro", &sample_upload(2, false), NOW).unwrap();
    set_decks(&config, &mut store, "cerro", &preferences(&["hill"])).unwrap();
    upload(&config, &mut store, "cerro", &sample_upload(0, false), NOW).unwrap();

    let completion = store.notifications("hill", NOW).remove(0);
    assert_eq!(completion.sender, "cerro");
    assert!(!completion.replied);
    let id = completion.id;
    assert_eq!(
        answer(&config, &mut store, "hill", id, "  Good job!  ", NOW),
        Ok("Cerro".to_string())
    );
    assert!(store.notifications("hill", NOW)[0].replied);

    let back = store.notifications("cerro", NOW).remove(0);
    assert_eq!(back.title, "\u{1f4ac} Hill");
    assert_eq!(back.body, "Good job!");
    assert_eq!(back.sender, "hill");
    assert_eq!(
        answer(&config, &mut store, "cerro", back.id, "thanks!", NOW),
        Ok("Hill".to_string())
    );
    assert_eq!(store.notifications("hill", NOW)[1].body, "thanks!");

    for (name, notification, message) in [
        ("hill", id, "already answered"),
        ("friend", id, "not my notification"),
        ("cerro", back.id, "answered by me"),
        ("hill", id + 999, "no such notification"),
    ] {
        assert_eq!(
            answer(&config, &mut store, name, notification, message, NOW),
            Err(Refusal::NotFound)
        );
    }
    for message in ["", "   ", "line\nbreak", &"x".repeat(MAX_MESSAGE + 1)] {
        assert_eq!(
            answer(&config, &mut store, "hill", id, message, NOW),
            Err(Refusal::BadRequest)
        );
    }
}

#[test]
fn incoming_preferences_are_checked_and_listed() {
    let (config, mut store) = fixture();
    upload(&config, &mut store, "cerro", &sample_upload(2, false), NOW).unwrap();
    set_decks(&config, &mut store, "cerro", &preferences(&["hill"])).unwrap();
    let listed = incoming_preferences(&config, &store, "hill", NOW);
    assert!(listed.settings.enabled);
    assert_eq!(listed.sharing_senders, ["cerro"]);
    assert_eq!(
        listed
            .senders
            .iter()
            .map(|p| (p.user.as_str(), p.display.as_str()))
            .collect::<Vec<_>>(),
        [("cerro", "Cerro"), ("friend", "friend")]
    );
    let mute = |names: &[&str]| IncomingSettings {
        enabled: true,
        muted_senders: names.iter().map(|n| (*n).into()).collect(),
    };
    for names in [vec!["stranger"], vec!["cerro", "cerro"], vec![""]] {
        assert!(matches!(
            set_incoming_preferences(&config, &mut store, "hill", &mute(&names), NOW),
            Err(Refusal::BadRequest)
        ));
    }
    let saved = set_incoming_preferences(&config, &mut store, "hill", &mute(&["cerro"]), NOW).unwrap();
    assert_eq!(saved.settings.muted_senders, ["cerro"]);
    upload(&config, &mut store, "cerro", &sample_upload(0, false), NOW).unwrap();
    assert!(store.notifications("hill", NOW).is_empty());

    let leave = ankiquest::subscriptions::Settings {
        enabled: true,
        unsubscribed_senders: vec!["cerro".into()],
    };
    let saved = set_deck_subscriptions(&config, &mut store, "hill", &leave, NOW).unwrap();
    assert_eq!(saved.unsubscribed_senders, ["cerro"]);
    assert!(saved.sharing_senders.is_empty());
    assert!(matches!(
        set_decks(&config, &mut store, "cerro", &preferences(&["hill"])),
        Err(Refusal::BadRequest)
    ));
    let own = ankiquest::subscriptions::Settings {
        enabled: true,
        unsubscribed_senders: vec!["hill".into()],
    };
    assert!(matches!(
        set_deck_subscriptions(&config, &mut store, "hill", &own, NOW),
        Err(Refusal::BadRequest)
    ));
}

#[test]
fn a_page_of_activity_is_bounded() {
    let (_, mut store) = fixture();
    let id = store.send(
        &Outgoing {
            to: "hill",
            from: "",
            title: "Hello",
            body: "There",
            kind: "message",
        },
        DAY,
        NOW,
    );
    for (days, limit) in [(Some(0), None), (Some(91), None), (None, Some(0)), (None, Some(201))] {
        assert!(matches!(
            activity_page(&store, "hill", days, None, limit, NOW),
            Err(Refusal::BadRequest)
        ));
    }
    let page = activity_page(&store, "hill", None, None, None, NOW).unwrap();
    assert_eq!((page.items.len(), page.unread_count), (1, 1));
    assert_eq!(page.retention_days, 90);
    assert_eq!(mark_read(&mut store, "hill", &[id], NOW), Ok(()));
    assert_eq!(
        activity_page(&store, "hill", None, None, None, NOW).unwrap().unread_count,
        0
    );
    assert_eq!(
        mark_read(&mut store, "hill", &vec![1; 1000], NOW),
        Err(Refusal::BadRequest)
    );
}

#[test]
fn the_records_board_lists_the_best_windows() {
    let now = NOW + 3_600_000;
    let profiles = [
        shown("cerro", &studied(30, DAY), now),
        shown("hill", &studied(8, DAY), now),
        shown("friend", &[], now),
    ];
    let board = records(&profiles);
    assert_eq!(
        board.iter().map(|r| r.window.as_str()).collect::<Vec<_>>(),
        [Records::NAMES.as_slice(), &["streak", "days"]].concat()
    );
    for window in board.iter().filter(|window| window.unit == "xp") {
        assert_eq!(
            window
                .holders
                .iter()
                .map(|h| h.user.as_str())
                .collect::<Vec<_>>(),
            vec!["cerro", "hill"],
            "{} lists the holder and whoever came closest",
            window.window
        );
        assert!(window.holders[0].value > window.holders[1].value);
        assert!(window.holders[1].detail > 0);
    }
    assert_eq!(board[0].holders[0].detail, 30, "all thirty land inside one hour");
    let lifetime: Vec<&RecordBoard> = board.iter().filter(|window| window.unit == "days").collect();
    for window in lifetime {
        assert_eq!(window.holders.len(), 2);
        assert!(window.holders.iter().all(|h| h.value == 1 && h.detail == 0 && h.at > 0));
    }
    assert_eq!(podium("day", &profiles).holders[0].user, "cerro");
    assert!(podium("day", &profiles).holders.len() <= PODIUM);
}

#[test]
fn the_leaderboard_is_ordered_by_the_period() {
    let now = NOW + 3_600_000;
    let profiles = [
        shown("hill", &studied(8, DAY), now),
        shown("cerro", &studied(30, DAY), now),
    ];
    assert!(is_period("week") && is_period("all") && !is_period("decade"));
    let standings = leaderboard(&profiles, None);
    assert_eq!(standings[0].user, "cerro");
    assert_eq!(standings[0].period, "week");
    assert_eq!(standings[0].xp, standings[0].periods.week);
    assert!(standings[0].xp > standings[1].xp);
    let unknown = leaderboard(&profiles, Some("decade"));
    assert_eq!(unknown[0].period, "week");
    assert_eq!(leaderboard(&profiles, Some("all"))[0].xp, profiles[1].xp_total);
    let ranking = [profiles[1].clone(), profiles[0].clone()];
    assert_eq!(
        ahead_of(&ranking, profiles[0].week_xp),
        Some(("cerro", profiles[1].week_xp))
    );
    assert_eq!(ahead_of(&ranking, profiles[1].week_xp), None);
}

fn queued_message(store: &mut Store, to: &str) -> i64 {
    store.send(
        &Outgoing {
            to,
            from: "",
            title: "Hello",
            body: "Do not lose this",
            kind: "message",
        },
        DAY,
        NOW,
    )
}

#[test]
fn missing_push_configuration_does_not_consume_a_queued_message() {
    let (config, mut store) = fixture();
    let id = queued_message(&mut store, "hill");
    for delivery in store.take_deck_deliveries(NOW) {
        assert!(matches!(
            deliver(&config, &mut store, &delivery, None, None, PLENTY, NOW),
            Step::Done
        ));
    }
    let row = store.notifications.iter().find(|row| row.id == id).unwrap();
    assert!(!row.pushed, "an inbox-only delivery has not been pushed");
    assert_eq!(row.push_attempts, 0);
}

#[test]
fn a_push_carries_the_message_and_is_tried_once_at_a_time() {
    let (config, mut store) = push_fixture(&[("hill", "hill-topic")]);
    let id = queued_message(&mut store, "hill");
    let delivery = store.take_deck_deliveries(NOW).remove(0);
    match deliver(&config, &mut store, &delivery, None, None, PLENTY, NOW) {
        Step::Push(push) => {
            assert_eq!(push_url(&push.base, &push.topic), "http://push.example/hill-topic");
            assert_eq!(push.body, "Do not lose this");
            assert_eq!(push.priority, "high");
            assert_eq!(push.tag, "white_check_mark");
            assert_eq!(push.timeout_ns, PUSH_TIMEOUT_NS);
        }
        other => panic!("no push: {other:?}"),
    }
    assert!(matches!(
        deliver(&config, &mut store, &delivery, None, None, PLENTY, NOW),
        Step::Done
    ));
    store.finish_push(id, false, NOW).unwrap();
    let retry = NOW + 20_000;
    let delivery = store.take_deck_deliveries(retry).remove(0);
    match deliver(&config, &mut store, &delivery, None, None, 1_500_000_000, retry) {
        Step::Push(push) => assert_eq!(push.timeout_ns, 1_500_000_000),
        other => panic!("no push: {other:?}"),
    }
    store.finish_push(id, true, retry).unwrap();
    let row = store.notifications.iter().find(|row| row.id == id).unwrap();
    assert!(row.pushed);
    assert_eq!(row.push_attempts, 2);
    assert_eq!(store.notifications("hill", NOW)[0].id, id);
}

#[test]
fn an_empty_budget_leaves_messages_ready_for_the_next_time() {
    let (config, mut store) = push_fixture(&[("hill", "hill-topic")]);
    let id = queued_message(&mut store, "hill");
    let delivery = store.take_deck_deliveries(NOW).remove(0);
    assert!(matches!(
        deliver(&config, &mut store, &delivery, None, None, 0, NOW),
        Step::Stop
    ));
    let row = store.notifications.iter().find(|row| row.id == id).unwrap();
    assert_eq!(row.push_attempts as i64 + row.retry_at, 0);
}

#[test]
fn stale_streak_warnings_are_cancelled_after_rollover_or_studying() {
    for done in [false, true] {
        let (config, mut store) = push_fixture(&[("hill", "hill-topic")]);
        let reviews = studied(1, if done { DAY } else { DAY - 1 });
        let profile = shown("hill", &reviews, NOW + 1);
        store.send_once(
            &Outgoing {
                to: "hill",
                from: "",
                title: "Streak at risk",
                body: "Your streak ends tonight",
                kind: "risk",
            },
            "risk:test",
            if done { DAY } else { DAY - 1 },
            NOW,
            true,
        );
        for delivery in store.take_deck_deliveries(NOW) {
            assert!(matches!(
                deliver(&config, &mut store, &delivery, Some(&profile), None, PLENTY, NOW),
                Step::Done
            ));
        }
        assert!(
            store.notifications.iter().all(|row| row.kind != "risk"),
            "an obsolete warning must not be sent on a later retry"
        );
        assert!(
            !store.mark_seen("hill", "risk:test"),
            "cancelling a stale warning must not generate it again"
        );
    }
}

#[test]
fn a_warning_that_holds_says_what_holds_now() {
    let (config, mut store) = push_fixture(&[("hill", "hill-topic")]);
    let profile = shown("hill", &studied(1, DAY - 1), NOW);
    assert!(profile.at_risk);
    store.send_once(
        &Outgoing {
            to: "hill",
            from: "",
            title: "Streak at risk",
            body: "Outdated",
            kind: "risk",
        },
        "risk:test",
        DAY,
        NOW,
        true,
    );
    let delivery = store.take_deck_deliveries(NOW).remove(0);
    match deliver(&config, &mut store, &delivery, Some(&profile), None, PLENTY, NOW) {
        Step::Push(push) => {
            assert_eq!(push.body, streak_warning_body(&profile));
            assert_eq!(push.tag, "fire");
        }
        other => panic!("no push: {other:?}"),
    }
}

#[test]
fn reminders_follow_their_guard() {
    let (config, mut store) = push_fixture(&[("hill", "hill-topic")]);
    store.send(
        &Outgoing {
            to: "hill",
            from: "",
            title: "Reminder",
            body: "Old",
            kind: "reminder_daily",
        },
        DAY,
        NOW,
    );
    let delivery = store.take_deck_deliveries(NOW).remove(0);
    let guarded = |guard: DeliveryGuard| Reminder { guard, body: "New".into() };
    assert!(matches!(
        deliver(&config, &mut store, &delivery, None, None, PLENTY, NOW),
        Step::CancelReminder
    ));
    assert!(matches!(
        deliver(&config, &mut store, &delivery, None, Some(&guarded(DeliveryGuard::Cancel)), PLENTY, NOW),
        Step::CancelReminder
    ));
    match deliver(&config, &mut store, &delivery, None, Some(&guarded(DeliveryGuard::Deliver)), PLENTY, NOW) {
        Step::Push(push) => {
            assert_eq!(push.body, "New");
            assert_eq!(push.priority, "default");
        }
        other => panic!("no push: {other:?}"),
    }
    let later = NOW + 120_000;
    assert!(matches!(
        deliver(&config, &mut store, &delivery, None, Some(&guarded(DeliveryGuard::Defer)), PLENTY, later),
        Step::Done
    ));
    assert!(store.take_deck_deliveries(later).is_empty());
}

#[test]
fn a_cancelled_push_stays_in_the_inbox_and_is_not_handed_out() {
    let (_, mut store) = fixture();
    let id = queued_message(&mut store, "hill");
    let other = queued_message(&mut store, "friend");
    let before = store.notifications.clone();
    store.cancel_push(id);
    assert_eq!(store.notifications.len(), before.len());
    assert!(store.notifications.iter().all(|row| row.push_cancelled == (row.id == id)));
    assert_eq!(store.notifications("hill", NOW)[0].id, id);
    let handed: Vec<i64> =
        store.take_deck_deliveries(NOW).iter().map(|d| d.notification.id).collect();
    assert_eq!(handed, [other]);
    store.cancel_push(other + 1);
    assert!(!store.notifications[1].push_cancelled, "an unknown number changes nothing");
}

#[test]
fn a_push_gets_what_is_left_down_to_the_last_nanosecond() {
    let (config, mut store) = push_fixture(&[("hill", "hill-topic")]);
    queued_message(&mut store, "hill");
    let delivery = store.take_deck_deliveries(NOW).remove(0);
    match deliver(&config, &mut store, &delivery, None, None, 1, NOW) {
        Step::Push(push) => assert_eq!(push.timeout_ns, 1),
        other => panic!("no push: {other:?}"),
    }
}

#[test]
fn an_inbox_shows_reminders_only_while_they_hold() {
    let (_, mut store) = fixture();
    for kind in ["message", "reminder_daily", "reminder_urgent"] {
        store.send(
            &Outgoing {
                to: "hill",
                from: "",
                title: "Title",
                body: "Old",
                kind,
            },
            DAY,
            NOW,
        );
    }
    let inbox = store.notifications("hill", NOW);
    let guarded = |guard: DeliveryGuard| Some(Reminder { guard, body: "New".into() });
    let now = current_inbox(
        &inbox,
        &vec![None, guarded(DeliveryGuard::Defer), guarded(DeliveryGuard::Deliver)],
    );
    assert_eq!(
        now.iter().map(|n| (n.kind.as_str(), n.body.as_str())).collect::<Vec<_>>(),
        [("message", "Old"), ("reminder_urgent", "New")]
    );
    assert_eq!(current_inbox(&inbox, &vec![None, None, None]).len(), 1);
}

#[test]
fn unlocks_are_queued_once_and_stay_out_of_the_inbox() {
    let (config, mut store) = push_fixture(&[("cerro", "cerro-topic")]);
    let now = NOW + 3_600_000;
    let profile = shown("cerro", &studied(30, DAY), now);
    assert!(!profile.events.is_empty());
    queue_for(&config, &mut store, "cerro", &profile, &[profile.clone()], now);
    let count = store.notifications.len();
    assert!(count > 0);
    queue_for(&config, &mut store, "cerro", &profile, &[profile.clone()], now);
    assert_eq!(store.notifications.len(), count);
    assert!(store.notifications("cerro", now).is_empty());

    let (config, mut quiet) = fixture();
    consume_events(&mut quiet, "cerro", &profile.events);
    queue_for(&config, &mut quiet, "cerro", &profile, &[profile.clone()], now);
    assert!(quiet.notifications.is_empty());
    assert!(!quiet.mark_seen("cerro", &profile.events[0].key));
}

#[test]
fn a_preview_adds_pending_reviews_without_keeping_them() {
    let player = Player {
        reviews: studied(3, DAY - 1),
        clock: Clock::default(),
        freeze_policy: FreezePolicy::default(),
    };
    let pending = studied(2, DAY);
    let now = NOW + 3_600_000;
    let shown_now = preview("hill", "Hill", &player, &pending, &Week::default(), now).unwrap();
    assert_eq!(shown_now.today.reviews, 2);
    assert_eq!(shown_now.streak, 2);
    let merged = merge(&player.reviews, &pending);
    assert_eq!(merged.len(), 5);
    assert_eq!(merge(&merged, &pending).len(), 5, "known reviews are not repeated");
    assert!(matches!(
        preview("hill", "Hill", &player, &studied(MAX_PENDING as i64 + 1, DAY), &Week::default(), now),
        Err(Refusal::TooLarge)
    ));
}

#[test]
fn a_checked_preview_is_made_only_of_what_can_be_computed() {
    let mut player = Player {
        reviews: studied(3, DAY - 1),
        clock: Clock::default(),
        freeze_policy: FreezePolicy::default(),
    };
    let now = NOW + 3_600_000;
    let week = Week::default();
    let pending = studied(2, DAY);
    let checked = checked_preview("hill", "Hill", &player, &pending, &week, now);
    let plain = preview("hill", "Hill", &player, &pending, &week, now).unwrap();
    match checked {
        Some(Ok(profile)) => {
            assert_eq!(profile.xp_total, plain.xp_total);
            assert_eq!(profile.streak, plain.streak);
        }
        _ => panic!("an ordinary history has a profile"),
    }
    let many = studied(MAX_PENDING as i64 + 1, DAY);
    assert!(matches!(
        checked_preview("hill", "Hill", &player, &many, &week, now),
        Some(Err(Refusal::TooLarge))
    ));
    assert!(checked_preview("hill", "Hill", &player, &pending, &week, i64::MAX).is_none());
    player.clock = Clock { offset_west_min: 3000, rollover_hour: 30 };
    assert!(
        matches!(checked_preview("hill", "Hill", &player, &pending, &week, now), Some(Ok(_))),
        "a collection may have an odd clock"
    );
    let later = 5_000_000_000_000_000;
    let reviews = studied(3, later / 86_400_000 - 1);
    let distant = Player { reviews, clock: Clock::default(), freeze_policy: FreezePolicy::default() };
    match checked_preview("hill", "Hill", &distant, &[], &week, later) {
        Some(Ok(profile)) => assert_eq!((profile.streak, profile.lifetime.reviews), (1, 3)),
        _ => panic!("a distant history has a profile"),
    }
    player.clock.offset_west_min = i64::MAX;
    assert!(checked_preview("hill", "Hill", &player, &pending, &week, now).is_none());
}

#[test]
fn a_clock_tells_the_days_that_it_can_count() {
    assert!(Clock::default().can_tell_day(NOW));
    assert!(Clock::default().can_tell_day(i64::MIN));
    let odd = Clock { offset_west_min: -9_000, rollover_hour: 99 };
    assert!(odd.can_tell_day(NOW));
    assert_eq!(odd.day(NOW), DAY + 2);
    assert!(!Clock { offset_west_min: i64::MAX, rollover_hour: 4 }.can_tell_day(NOW));
    assert!(!Clock { offset_west_min: 0, rollover_hour: i64::MIN }.can_tell_day(NOW));
    let edge = i64::MAX / 60;
    assert!(Clock { offset_west_min: edge, rollover_hour: 0 }.can_tell_day(NOW));
    assert!(!Clock { offset_west_min: edge, rollover_hour: 0 }.can_tell_day(-1_000_000_000));
}

#[test]
fn freeze_settings_show_the_last_choice() {
    let choice = |at, enabled| FreezePreference { at, enabled };
    let none = freeze_settings(&[], None);
    assert!(!none.enabled);
    assert_eq!((none.freezes, none.capacity), (0, 3));
    assert!(freeze_settings(&[choice(1, false), choice(2, true)], None).enabled);
    assert!(!freeze_settings(&[choice(1, true), choice(2, false)], None).enabled);
}

#[test]
fn what_is_not_configured_has_a_default() {
    assert_eq!(default_addr(), "127.0.0.1:8097");
    assert_eq!(default_state(), "state");
    assert_eq!(default_week_timezone(), "UTC");
    assert_eq!(default_week_rollover_hour(), 4);
}

#[test]
fn players_are_shown_by_name() {
    let (config, _) = push_fixture(&[("hill", " hill-topic ")]);
    assert!(is_configured(&config, "hill") && !is_configured(&config, "nobody"));
    assert_eq!(display_of(&config, "hill"), "Hill");
    assert_eq!(display_of(&config, "friend"), "friend");
    assert_eq!(
        push_destination(&config, "hill"),
        Some(("http://push.example/".to_string(), "hill-topic".to_string()))
    );
    assert_eq!(push_destination(&config, "friend"), None);
    assert_eq!(player_names(&config), ["cerro", "friend", "hill"]);
    assert_eq!(challenge_recipients(&config, "cerro").len(), 2);
    assert_eq!(
        participants(&config, &vec!["zoe".to_string(), "hill".to_string()])
            .iter()
            .map(|p| (p.user.as_str(), p.display.as_str()))
            .collect::<Vec<_>>(),
        [("cerro", "Cerro"), ("friend", "friend"), ("hill", "Hill"), ("zoe", "zoe")]
    );
    assert_eq!(click_url("https://example.org//", "hill"), "https://example.org/#hill");
}

#[test]
fn competitions_begin_between_1970_and_today() {
    assert_eq!(check_start_date("2024-10-04", NOW), Ok(()));
    assert_eq!(check_start_date("1969-12-31", NOW), Err(StartError::OutOfRange));
    assert_eq!(check_start_date("2999-01-01", NOW), Err(StartError::OutOfRange));
    for text in ["", "2024-13-01", "yesterday", "2024-10-04T00:00"] {
        assert_eq!(check_start_date(text, NOW), Err(StartError::NotADate));
    }
    assert!(begins_by(0, NOW) && begins_by(DAY, NOW));
    assert!(!begins_by(-1, NOW) && !begins_by(DAY + 1, NOW));
    assert!(refresh_due(None, NOW));
    assert!(refresh_due(Some(NOW + 1), NOW));
    assert!(refresh_due(Some(NOW - REFRESH_MS), NOW));
    assert!(!refresh_due(Some(NOW - REFRESH_MS + 1), NOW));
    let week = Week::default();
    assert_eq!(asked_month(None, None, &week, NOW), Some((2024, 10)));
    assert_eq!(asked_month(Some(2023), Some(2), &week, NOW), Some((2023, 2)));
    assert_eq!(asked_month(Some(1969), None, &week, NOW), None);
    assert_eq!(asked_month(None, Some(13), &week, NOW), None);
    assert!(valid_month(2024, 12) && !valid_month(2024, 13) && !valid_month(2024, 0));
}
