use ankiquest::calendar::Clock;
use ankiquest::quests::Review;
use ankiquest::store::{DeckRow, Store};
use ankiquest::sync::{collection_clock, collection_reviews, Entry};

fn review(id: i64) -> Review {
    Review {
        id,
        cid: 1,
        last_ivl: 0,
        time_ms: 4000,
        kind: 1,
    }
}

fn entry(id: i64, cid: i64, ease: i64, last_ivl: i64, time_ms: i64, kind: u8) -> Entry {
    Entry { review: Review { id, cid, last_ivl, time_ms, kind }, ease }
}

#[test]
fn ingests_reviews_and_clock_once() {
    let mut entries = vec![
        entry(1000, 1, 3, 0, 4000, 0),
        entry(2000, 2, 1, 30, 6000, 1),
        entry(3000, 2, 0, 30, 0, 4),
    ];
    let clock = collection_clock(Some(-120), Some(5));
    let mut store = Store::new();
    for _ in 0..2 {
        store.upsert("hill", &collection_reviews(&entries), &[], clock);
    }
    let reviews = store.reviews("hill");
    assert_eq!(reviews.len(), 2);
    assert_eq!(reviews[1].last_ivl, 30);
    assert_eq!(
        store.clock("hill"),
        Clock {
            offset_west_min: -120,
            rollover_hour: 5
        }
    );
    assert_eq!(store.users(), vec!["hill".to_string()]);

    entries.push(entry(4000, 3, 3, 0, 4000, 0));
    store.upsert("hill", &collection_reviews(&entries), &[], clock);
    assert_eq!(store.reviews("hill").len(), 3);

    assert!(store.mark_seen("hill", "level:2"));
    assert!(!store.mark_seen("hill", "level:2"));
    assert!(!store.is_known("missing"));
}

#[test]
fn undone_reviews_are_deleted() {
    let mut store = Store::new();
    let clock = Clock::default();
    store.upsert("hill", &[review(1), review(2), review(3)], &[], clock);
    store.upsert("hill", &[review(4)], &[2, 3, 99], clock);
    let ids: Vec<i64> = store.reviews("hill").iter().map(|r| r.id).collect();
    assert_eq!(ids, vec![1, 4]);
}

#[test]
fn reviews_are_kept_in_order_and_by_player() {
    let mut store = Store::new();
    let clock = Clock::default();
    store.upsert("hill", &[review(3), review(1)], &[], clock);
    store.upsert("cerro", &[review(2)], &[], clock);
    let mut changed = review(1);
    changed.time_ms = 9000;
    store.upsert("hill", &[changed], &[], clock);
    let ids: Vec<i64> = store.reviews("hill").iter().map(|r| r.id).collect();
    assert_eq!(ids, vec![1, 3]);
    assert_eq!(store.reviews("cerro").len(), 1);
    assert_eq!(store.users(), ["cerro", "hill"]);
    assert!(store.is_known("hill"));
    assert!(store.reviews("nobody").is_empty());
    assert_eq!(store.clock("nobody"), Clock::default());
}

#[test]
fn a_collection_without_a_clock_gets_the_usual_one() {
    assert_eq!(collection_clock(None, None), Clock::default());
    assert_eq!(collection_clock(Some(60), None).offset_west_min, 60);
    assert_eq!(collection_clock(None, Some(2)).rollover_hour, 2);
}

#[test]
fn what_does_not_hold_together_is_noticed() {
    let deck = |owner: &str, id: &str| DeckRow {
        owner: owner.into(),
        id: id.into(),
        name: "Spanish".into(),
        enabled: true,
    };
    let mut store = Store::new();
    store.upsert("hill", &[review(1), review(2)], &[], Clock::default());
    store.decks.push(deck("cerro", "1"));
    store.decks.push(deck("hill", "1"));
    store
        .deck_recipients
        .push(("cerro".into(), "1".into(), "hill".into()));
    assert!(store.is_sound());

    store.unsubscriptions.push(("hill".into(), "cerro".into()));
    assert!(!store.is_sound(), "nothing is shared with who has left");
    store.unsubscriptions.clear();
    store
        .unsubscribed_decks
        .push(("hill".into(), "cerro".into(), "1".into()));
    assert!(!store.is_sound(), "nothing was taken from who has not left");
    store.unsubscribed_decks.clear();
    store.decks.push(deck("cerro", "1"));
    assert!(!store.is_sound(), "a deck is stored once");
    store.decks.pop();
    store
        .deck_recipients
        .push(("cerro".into(), "1".into(), "hill".into()));
    assert!(!store.is_sound(), "a deck is shared once");
    store.deck_recipients.pop();
    store.reviews[0].1.reverse();
    assert!(!store.is_sound(), "reviews stand in the order of time");
    store.reviews[0].1.reverse();
    assert!(store.is_sound());
}
