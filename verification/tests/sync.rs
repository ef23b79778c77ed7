use ankiquest::calendar::Clock;
use ankiquest::game::{compute, Week};
use ankiquest::freezes::FreezePolicy;
use ankiquest::limits::{can_compute, near, FAR_MS};
use ankiquest::quests::Review;
use ankiquest::store::Store;
use ankiquest::sync::{
    collection_reviews, import_report, ingest_failure, settle_import, sync_users, worth_reading,
    Entry, Looked, Mark, Signature,
};

fn mark(seconds: u64, bytes: u64) -> Option<Mark> {
    Some(Mark { seconds, nanos: 0, bytes })
}

fn entry(id: i64, ease: i64, kind: u8) -> Entry {
    Entry {
        review: Review { id, cid: 1, last_ivl: 0, time_ms: 4000, kind },
        ease,
    }
}

#[test]
fn a_collection_is_read_when_it_is_there_and_new() {
    let missing = Signature { file: None, log: None };
    let first = Signature { file: mark(1, 10), log: None };
    let second = Signature { file: mark(1, 10), log: mark(2, 5) };
    assert!(!worth_reading(None, missing));
    assert!(worth_reading(None, first));
    assert!(!worth_reading(Some(first), first));
    assert!(worth_reading(Some(first), second));
}

#[test]
fn a_collection_that_changes_while_it_is_read_is_left_for_later() {
    let mut store = Store::new();
    let before = Signature { file: mark(1, 10), log: None };
    let after = Signature { file: mark(2, 12), log: None };
    let entries = [entry(1000, 3, 0), entry(2000, 0, 1), entry(3000, 2, 4)];
    assert!(!store.ingest("hill", None, before, after, &entries, Some(-120), Some(5)));
    assert!(!store.is_known("hill"));
    assert!(store.ingest("hill", None, before, before, &entries, Some(-120), Some(5)));
    assert_eq!(store.reviews("hill").len(), 1);
    assert_eq!(
        store.clock("hill"),
        Clock { offset_west_min: -120, rollover_hour: 5 }
    );
    assert!(!store.ingest("hill", Some(before), before, before, &entries, None, None));
    assert_eq!(store.clock("hill").rollover_hour, 5);
}

#[test]
fn the_button_that_was_pressed_does_not_matter() {
    let again = collection_reviews(&[entry(1, 1, 0), entry(2, 1, 1)]);
    let easy = collection_reviews(&[entry(1, 4, 0), entry(2, 3, 1)]);
    assert_eq!(format!("{again:?}"), format!("{easy:?}"));
}

#[test]
fn every_folder_with_a_collection_is_a_player() {
    let found = [
        Looked::Collection("hill".into()),
        Looked::NotAFolder,
        Looked::NoCollection,
        Looked::Collection("cerro".into()),
    ];
    assert_eq!(
        sync_users(&found),
        Ok(vec!["hill".to_string(), "cerro".to_string()])
    );
    assert_eq!(sync_users(&[]), Ok(vec![]));
}

#[test]
fn whatever_is_wrong_with_the_folder_is_told() {
    let found = [
        Looked::Collection("hill".into()),
        Looked::Unread("denied".into()),
        Looked::NoName("\"\\xFF\"".into()),
        Looked::NotAFile("/sync/x/collection.anki2".into()),
        Looked::Failed("/sync/y/collection.anki2".into(), "denied".into()),
    ];
    assert_eq!(
        sync_users(&found),
        Err("denied; invalid sync user name: \"\\xFF\"; /sync/x/collection.anki2 is not a collection file; \
             /sync/y/collection.anki2: denied"
            .to_string())
    );
    assert_eq!(import_report(&vec![]), Ok(()));
    assert_eq!(
        import_report(&vec![ingest_failure("hill", "locked"), ingest_failure("cerro", "gone")]),
        Err("ingest for hill failed: locked; ingest for cerro failed: gone".to_string())
    );
}

#[test]
fn a_first_import_is_no_news() {
    let now = 20_000 * 86_400_000 + 43_200_000;
    let reviews: Vec<Review> = (0..100)
        .map(|i| Review { id: now - (100 - i) * 10_000, cid: i, last_ivl: 30, time_ms: 5000, kind: 0 })
        .collect();
    let profile = compute("hill", "Hill", &reviews, &Clock::default(), &Week::default(), now);
    let key = profile.events[0].key.clone();
    let mut store = Store::new();
    settle_import(&mut store, "hill", false, Some(&profile));
    settle_import(&mut store, "hill", true, None);
    assert!(store.seen.is_empty());
    settle_import(&mut store, "hill", true, Some(&profile));
    assert!(!store.mark_seen("hill", &key));
}

#[test]
fn histories_are_computed_wherever_the_numbers_allow_it() {
    let review = |id: i64, time_ms: i64| Review { id, cid: 1, last_ivl: 0, time_ms, kind: 1 };
    let week = Week::default();
    let can = |reviews: &[Review], clock: Clock, now: i64, legacy_until: Option<i64>| {
        let policy = FreezePolicy { legacy_until, preferences: vec![] };
        can_compute("hill", reviews, &clock, &week, now, &policy)
    };
    let usual = Clock::default();
    assert!(near(FAR_MS) && near(-FAR_MS) && !near(FAR_MS + 1) && !near(i64::MIN));
    assert!(can(&[review(1000, 4000)], usual, 2000, None));
    assert!(can(&[], usual, 2000, Some(1000)));
    assert!(can(&[], usual, 2000, Some(i64::MAX)));
    assert!(can(&[review(i64::MAX, 4000)], usual, 2000, None), "a review to come does not count yet");
    assert!(!can(&[review(i64::MIN, 4000)], usual, 2000, None));
    assert!(!can(&[], usual, i64::MAX, None));
    assert!(can(&[review(1, i64::MIN)], usual, 2000, None));
    assert!(can(&[review(1, i64::MAX), review(2, i64::MIN), review(3, i64::MAX)], usual, 2000, None));
    assert!(!can(&[review(1, i64::MAX), review(2, 1)], usual, 2000, None), "within a day");
    let day = 86_400_000;
    let long = [review(day, i64::MAX), review(3 * day, 1)];
    assert!(!can(&long, usual, 4 * day, None), "over the days");
    assert!(can(&long, usual, 2 * day, None), "up to today");
    let far = FAR_MS + 100 * day;
    assert!(can(&[review(far - day, 4000)], usual, far, None));
    assert!(can(&[], Clock { offset_west_min: 20_000_000, rollover_hour: -200_000 }, 2000, None));
    assert!(!can(&[], Clock { offset_west_min: i64::MAX, rollover_hour: 4 }, 2000, None));
}
