//! Profiles computed from reviews.

use ankiquest::calendar::{date_string, Clock};
use ankiquest::achievements::{achievement_xp, Metric};
use ankiquest::days::{collect_days, collect_days_with_quests, review_base_xp, MATURE_IVL, SESSION_GAP_MS};
use ankiquest::double::Double;
use ankiquest::freezes::{FreezePolicy, FreezePreference, MAX_FREEZES};
use ankiquest::game::{compute, compute_with_freezes, Profile, HEATMAP_DAYS};
use ankiquest::levels::{level_for, level_need};
use ankiquest::nudges::nudges;
use ankiquest::quests::{gen_quests, seed_of, DayStats, Review, RECENT_DAYS};
use ankiquest::records::{Periods, Records};
use ankiquest::week::Week;
use chrono::TimeZone;
use std::collections::{HashSet, VecDeque};

/// The number that a double stands for.
fn value(x: Double) -> f64 {
    let (negative, mantissa, exponent) = x.parts();
    let magnitude = mantissa as f64 * 2f64.powi(exponent as i32 - 1074);
    if negative {
        -magnitude
    } else {
        magnitude
    }
}

fn values(earned: &[(i64, Double)]) -> Vec<(i64, f64)> {
    earned.iter().map(|(id, xp)| (*id, value(*xp))).collect()
}

const DAY_MS: i64 = 86_400_000;
const NOON: i64 = 12 * 3_600_000;

fn utc() -> Clock {
    Clock::default()
}

fn reviews_on(day: i64, count: i64, cid_base: i64) -> Vec<Review> {
    (0..count)
        .map(|i| Review {
            id: day * DAY_MS + NOON + i * 10_000,
            cid: cid_base + i,
            last_ivl: 0,
            time_ms: 5_000,
            kind: 1,
        })
        .collect()
}

fn history(days: &[i64]) -> Vec<Review> {
    days.iter()
        .flat_map(|d| reviews_on(*d, 5, d * 1000))
        .collect()
}

fn at(day: i64) -> i64 {
    day * DAY_MS + NOON + 3_600_000
}

fn protection(at: i64, enabled: bool) -> FreezePreference {
    FreezePreference { at, enabled }
}

fn protected(reviews: &[Review], now: i64, changes: &[FreezePreference]) -> Profile {
    compute_with_freezes(
        "a",
        "a",
        reviews,
        &utc(),
        &Week::default(),
        now,
        &FreezePolicy {
            preferences: changes.to_vec(),
            ..FreezePolicy::default()
        },
    )
}

/// Finish every possible quest metric, with a second session before noon.
fn perfect_day(prior: &[Review], day: i64, clock: &Clock) -> Vec<Review> {
    let (days, _, _) = collect_days_with_quests(prior, clock, seed_of("a"));
    let mut recent: VecDeque<DayStats> = VecDeque::new();
    for earlier in 0..=day {
        if let Some(stats) = days.get(earlier) {
            recent.push_back(stats);
            if recent.len() > RECENT_DAYS {
                recent.pop_front();
            }
        }
    }
    let quests = gen_quests(seed_of("a"), day, &recent);
    let count = quests.iter().map(|q| q.target).max().unwrap().max(2) as i64 + 1;
    let start = clock.day_start_ms(day) + 2 * 3_600_000;
    (0..count)
        .map(|i| {
            let id = start + i * 10_000 + if i == count - 1 { SESSION_GAP_MS } else { 0 };
            Review {
                id,
                cid: id,
                last_ivl: MATURE_IVL,
                time_ms: 60_000,
                kind: 0,
            }
        })
        .collect()
}

fn perfect_history(days: &[i64]) -> Vec<Review> {
    let mut reviews = Vec::new();
    for day in days {
        reviews.extend(perfect_day(&reviews, *day, &utc()));
    }
    reviews
}

fn first_completion(reviews: &[Review], day: i64) -> i64 {
    collect_days_with_quests(reviews, &utc(), seed_of("a"))
        .0
        .get(day)
        .unwrap()
        .quests_completed_at
        .expect("fixture completes every quest")
}

#[test]
fn day_respects_rollover_and_offset() {
    let clock = Clock {
        offset_west_min: -120,
        rollover_hour: 4,
    };
    let one_am_utc = 100 * DAY_MS + 3_600_000;
    assert_eq!(clock.hour(one_am_utc), 3);
    assert_eq!(clock.day(one_am_utc), 99);
    assert_eq!(clock.day(one_am_utc + 2 * 3_600_000), 100);
}

#[test]
fn dates() {
    assert_eq!(date_string(0), "1970-01-01");
    assert_eq!(date_string(20_714), "2026-09-18");
    assert_eq!(date_string(19_782), "2024-02-29");
}

#[test]
fn periods_narrow_from_lifetime_down_to_the_hour() {
    let day = 20_022i64;
    let now = day * DAY_MS + 12 * 3_600_000;
    let review = |ms: i64| Review {
        id: ms,
        cid: ms,
        last_ivl: 0,
        time_ms: 5_000,
        kind: 1,
    };
    let reviews = vec![
        review((day - 200) * DAY_MS + 12 * 3_600_000),
        review((day - 10) * DAY_MS + 12 * 3_600_000),
        review(now - 2 * 3_600_000),
        review(now - 30 * 60_000),
    ];
    let p = compute("a", "a", &reviews, &utc(), &Week::default(), now);
    assert!(
        p.periods.hour > 0,
        "the last review counts towards this hour"
    );
    assert!(p.periods.day > p.periods.hour);
    assert!(p.periods.week >= p.periods.day);
    assert!(p.periods.month > p.periods.week);
    assert!(p.periods.year > p.periods.month);
    assert_eq!(p.periods.all, p.xp_total);
    assert_eq!(p.periods.week, p.week_xp);
    for name in Periods::NAMES {
        assert!(p.periods.get(name) > 0, "{name} should have XP");
    }
    let quiet = compute(
        "a",
        "a",
        &reviews,
        &utc(),
        &Week::default(),
        now + 5 * 3_600_000,
    );
    assert_eq!(
        quiet.periods.hour, 0,
        "an hour without reviews earns nothing"
    );
    assert_eq!(quiet.periods.day, p.periods.day);
}

#[test]
fn week_is_shared_across_time_zones() {
    let berlin = chrono_tz::Europe::Berlin;
    let week = Week::new("Europe/Berlin", 4).unwrap();
    let at_berlin = |d, h| {
        berlin
            .with_ymd_and_hms(2026, 9, d, h, 0, 0)
            .unwrap()
            .timestamp_millis()
    };
    let buenos_aires = Clock {
        offset_west_min: 180,
        rollover_hour: 4,
    };
    let review = |id| Review {
        id,
        cid: id,
        last_ivl: 0,
        time_ms: 5_000,
        kind: 1,
    };

    assert_eq!(week.of(at_berlin(21, 3)), week.of(at_berlin(20, 12)));
    assert_ne!(week.of(at_berlin(21, 5)), week.of(at_berlin(20, 12)));
    assert_eq!(week.end_after(at_berlin(21, 10)), at_berlin(28, 4));
    assert_eq!(week.end_after(at_berlin(21, 3)), at_berlin(21, 4));

    let sunday = at_berlin(20, 20);
    let late_sunday = at_berlin(21, 8);
    let p = compute(
        "a",
        "a",
        &[review(sunday), review(late_sunday)],
        &buenos_aires,
        &week,
        late_sunday,
    );
    assert_eq!(
        p.week_xp, 0,
        "their Sunday started before the shared week did"
    );
    assert_eq!(p.today.reviews, 2);

    let monday = at_berlin(21, 10);
    let p = compute(
        "a",
        "a",
        &[review(sunday), review(monday)],
        &buenos_aires,
        &week,
        monday,
    );
    assert!(
        p.week_xp > 0,
        "their Monday started after the shared week did"
    );
}

#[test]
fn levels_are_monotonic() {
    assert_eq!(level_for(0), (1, 0, 100));
    assert_eq!(level_for(99).0, 1);
    assert_eq!(level_for(100), (2, 0, 280));
    let mut last = 0;
    for level in 1..200 {
        assert!(level_need(level) > last);
        last = level_need(level);
    }
}

#[test]
fn streak_counts_consecutive_days() {
    let p = compute(
        "a",
        "a",
        &history(&[10, 11, 12]),
        &utc(),
        &Week::default(),
        at(12),
    );
    assert_eq!(p.streak, 3);
    assert!(!p.at_risk);
}

#[test]
fn today_without_reviews_is_at_risk_not_broken() {
    let p = compute(
        "a",
        "a",
        &history(&[10, 11, 12]),
        &utc(),
        &Week::default(),
        at(13),
    );
    assert_eq!(p.streak, 3);
    assert!(p.at_risk);
}

#[test]
fn missed_day_without_freeze_resets() {
    let p = compute(
        "a",
        "a",
        &history(&[10, 11, 13]),
        &utc(),
        &Week::default(),
        at(13),
    );
    assert_eq!(p.streak, 1);
    assert_eq!(p.lifetime.best_streak, 2);
}

#[test]
fn freezes_default_off_and_start_empty_without_historical_rewards() {
    let reviews = perfect_history(&[1, 2, 3, 4, 5, 6, 7]);
    let p = protected(&reviews, at(9), &[]);
    assert!(!p.freezes_enabled);
    assert_eq!(p.stored_freezes, 0);
    assert_eq!(p.freezes, 0);
    assert_eq!(p.streak, 0);
    assert!(p.heatmap.iter().all(|c| !c.frozen));
    let opted_in = protected(&reviews, at(9), &[protection(at(9), true)]);
    assert!(opted_in.freezes_enabled);
    assert_eq!(opted_in.freezes, 0);
    assert!(!opted_in.freeze_earned_today);
    assert_eq!(protected(&[], at(9), &[protection(0, true)]).freezes, 0);
    let ordinary = protected(
        &history(&[1, 2, 3, 4, 5, 6, 7]),
        at(7),
        &[protection(0, true)],
    );
    assert_eq!(
        ordinary.freezes, 0,
        "a seven-day streak alone earns nothing"
    );
}

#[test]
fn migration_preserves_previously_protected_days_and_streak() {
    let reviews = history(&[1, 2, 3, 4, 5, 6, 7, 9]);
    let policy = FreezePolicy {
        legacy_until: Some(at(10)),
        preferences: vec![],
    };
    let p = compute_with_freezes(
        "a",
        "a",
        &reviews,
        &utc(),
        &Week::default(),
        at(10),
        &policy,
    );
    assert_eq!(
        p.streak, 8,
        "upgrading must not erase the freeze that covered day8"
    );
    assert_eq!(p.lifetime.best_streak, 8);
    assert!(
        p.heatmap
            .iter()
            .any(|c| c.date == date_string(8) && c.frozen)
    );
    assert_eq!(p.freezes, 0);
    assert_eq!(p.stored_freezes, 0);
    assert!(!p.freezes_enabled);
    let before_cutover = compute_with_freezes(
        "a",
        "a",
        &reviews,
        &utc(),
        &Week::default(),
        at(9),
        &FreezePolicy {
            legacy_until: Some(at(10)),
            preferences: vec![],
        },
    );
    assert_eq!(p.xp_total, before_cutover.xp_total);
    assert_eq!(p.lifetime.quests, before_cutover.lifetime.quests);
    for cell in before_cutover
        .heatmap
        .iter()
        .filter(|c| c.reviews > 0 || c.frozen)
    {
        let after = p.heatmap.iter().find(|c| c.date == cell.date).unwrap();
        assert_eq!(
            (after.reviews, after.xp, after.frozen),
            (cell.reviews, cell.xp, cell.frozen)
        );
    }
}

#[test]
fn migration_clears_unspent_legacy_stock_and_new_quests_use_the_new_rules() {
    let mut reviews = history(&(1..=14).collect::<Vec<_>>());
    let policy = FreezePolicy {
        legacy_until: Some(utc().day_start_ms(15)),
        preferences: vec![protection(utc().day_start_ms(15), true)],
    };
    let run = |reviews: &[Review], day| {
        compute_with_freezes(
            "a",
            "a",
            reviews,
            &utc(),
            &Week::default(),
            at(day),
            &policy,
        )
    };
    let old = run(&reviews, 14);
    assert_eq!(old.stored_freezes, 2);
    let upgraded = run(&reviews, 15);
    assert_eq!(upgraded.stored_freezes, 0);
    assert_eq!(upgraded.streak, 14);
    assert_eq!(upgraded.xp_total, old.xp_total);
    assert_eq!(
        run(&reviews, 16).streak,
        0,
        "old stock cannot cover a new missed day"
    );
    reviews.extend(perfect_day(&reviews, 15, &utc()));
    let completed = run(&reviews, 15);
    assert_eq!(completed.freezes, 1);
    assert!(completed.freeze_earned_today);
    let covered = run(&reviews, 17);
    assert_eq!(covered.freezes, 0);
    assert_eq!(covered.streak, 15);
}

#[test]
fn freeze_requires_all_quests_and_is_earned_only_once_per_day() {
    let mut reviews = perfect_history(&[1]);
    let completion = first_completion(&reviews, 1);
    let changes = [protection(0, true)];
    let before: Vec<_> = reviews
        .iter()
        .copied()
        .filter(|r| r.id < completion)
        .collect();
    let p = protected(&before, completion - 1, &changes);
    assert!(p.quests.iter().any(|q| !q.done));
    assert_eq!(p.freezes, 0);

    let p = protected(&reviews, at(1), &changes);
    assert!(p.quests.iter().all(|q| q.done));
    assert!(p.freeze_earned_today);
    assert_eq!(p.freezes, 1);
    assert_eq!(
        format!("{p:?}"),
        format!("{:?}", protected(&reviews, at(1), &changes)),
        "repeated reads replay the same result"
    );
    reviews.extend(reviews_on(1, 5, 99));
    assert_eq!(protected(&reviews, at(1), &changes).freezes, 1);
}

#[test]
fn freeze_reward_matches_visible_quest_completion_after_day_rollover() {
    let mut reviews = perfect_history(&[1]);
    let first_today = reviews.len();
    reviews.extend(perfect_day(&reviews, 2, &utc()));
    // Read the visible quest state independently of the collector's saved
    // completion timestamp, including the previous day's adaptive targets.
    let completed = (first_today..reviews.len())
        .find(|&i| {
            protected(&reviews[..=i], reviews[i].id, &[])
                .quests
                .iter()
                .all(|quest| quest.done)
        })
        .expect("the second day completes its displayed quests");
    let completion = reviews[completed].id;
    assert!(
        protected(&reviews[..completed], completion - 1, &[])
            .quests
            .iter()
            .any(|quest| !quest.done)
    );
    assert_eq!(
        protected(&reviews, at(2), &[protection(completion, true)]).stored_freezes,
        1,
        "opting in at the visible completion earns today's freeze"
    );
    assert_eq!(
        protected(&reviews, at(2), &[protection(completion + 1, true)]).stored_freezes,
        0,
        "opting in after completion cannot claim a past reward"
    );
}

#[test]
fn preference_at_first_completion_controls_earning_without_backfill() {
    let mut reviews = perfect_history(&[1]);
    let completion = first_completion(&reviews, 1);
    assert_eq!(
        protected(&reviews, at(1), &[protection(completion, true)]).freezes,
        1
    );
    assert_eq!(
        protected(&reviews, at(1), &[protection(completion + 1, true)]).freezes,
        0
    );
    reviews.extend(reviews_on(1, 3, 999));
    let p = protected(
        &reviews,
        at(1),
        &[
            protection(0, true),
            protection(completion, false),
            protection(completion + 1, true),
        ],
    );
    assert_eq!(
        p.freezes, 0,
        "more reviews cannot retry a missed earning opportunity"
    );
    let p = protected(
        &reviews,
        at(1),
        &[protection(0, true), protection(completion + 1, false)],
    );
    assert_eq!(
        p.stored_freezes, 1,
        "turning off keeps what was already earned"
    );
    assert_eq!(
        p.freezes, 0,
        "older clients must not promise disabled coverage"
    );
}

#[test]
fn freezes_cap_at_three_and_can_be_earned_again_after_spending() {
    let reviews = perfect_history(&[1, 2, 3, 4]);
    let changes = [protection(0, true)];
    let full = protected(&reviews, at(4), &changes);
    assert_eq!(MAX_FREEZES, 3);
    assert_eq!(full.freezes, MAX_FREEZES);
    assert!(
        !full.freeze_earned_today,
        "completing quests at capacity grants no extra charge"
    );
    let mut after_gap = reviews;
    after_gap.extend(perfect_day(&after_gap, 6, &utc()));
    let p = protected(&after_gap, at(6), &changes);
    assert_eq!(p.freezes, 3);
    assert!(p.freeze_earned_today);
    assert_eq!(
        p.streak, 5,
        "covered days preserve rather than increase the streak"
    );
    let frozen = p.heatmap.iter().find(|c| c.date == date_string(5)).unwrap();
    assert!(frozen.frozen);
    assert_eq!(frozen.reviews, 0);
    assert_eq!(frozen.xp, achievement_xp(Metric::FreezesUsed, 1));
}

#[test]
fn ended_missed_days_spend_one_each_until_empty() {
    let reviews = perfect_history(&[1, 2, 3]);
    let changes = [protection(0, true)];
    let today = protected(&reviews, at(4), &changes);
    assert_eq!(today.freezes, 3, "today has not ended yet");
    assert_eq!(today.streak, 3);
    let p = protected(&reviews, at(7), &changes);
    assert_eq!(p.freezes, 0);
    assert_eq!(p.streak, 3);
    assert_eq!(p.heatmap.iter().filter(|c| c.frozen).count(), 3);
    let broken = protected(&reviews, at(8), &changes);
    assert_eq!(broken.streak, 0);
    assert_eq!(broken.heatmap.iter().filter(|c| c.frozen).count(), 3);
}

#[test]
fn disabling_preserves_bank_and_past_coverage_but_does_not_cover_new_gaps() {
    let reviews = perfect_history(&[1, 2, 3]);
    let off = [protection(0, true), protection(at(5), false)];
    let paused = protected(&reviews, at(6), &off);
    assert_eq!(paused.stored_freezes, 2);
    assert_eq!(paused.freezes, 0);
    assert_eq!(paused.streak, 0);
    assert_eq!(paused.heatmap.iter().filter(|c| c.frozen).count(), 1);
    assert!(
        paused
            .heatmap
            .iter()
            .any(|c| c.date == date_string(4) && c.frozen)
    );
    let mut on_again = off.to_vec();
    on_again.push(protection(at(6), true));
    let p = protected(&reviews, at(6), &on_again);
    assert_eq!(p.freezes, 2);
    assert_eq!(
        p.streak, 0,
        "reenabling cannot retroactively cover yesterday"
    );
    assert_eq!(p.heatmap.iter().filter(|c| c.frozen).count(), 1);
    assert_eq!(
        protected(&reviews, at(8), &on_again).freezes,
        2,
        "an already broken streak spends nothing"
    );
}

#[test]
fn missed_day_checks_setting_just_before_the_anki_rollover() {
    let clock = Clock {
        offset_west_min: -120,
        rollover_hour: 4,
    };
    let reviews = perfect_day(&[], 1, &clock);
    let boundary = clock.day_start_ms(3);
    let run = |now, changes: &[FreezePreference]| {
        compute_with_freezes(
            "a",
            "a",
            &reviews,
            &clock,
            &Week::default(),
            now,
            &FreezePolicy {
                preferences: changes.to_vec(),
                ..FreezePolicy::default()
            },
        )
    };
    assert_eq!(run(boundary - 1, &[protection(0, true)]).stored_freezes, 1);
    let p = run(
        boundary,
        &[protection(0, true), protection(boundary, false)],
    );
    assert_eq!(
        p.stored_freezes, 0,
        "a change on the new day preserves yesterday's enabled state"
    );
    assert_eq!(p.streak, 1);
    let p = run(
        boundary,
        &[protection(0, true), protection(boundary - 1, false)],
    );
    assert_eq!(p.stored_freezes, 1);
    assert_eq!(p.streak, 0);
    let p = run(
        boundary,
        &[
            protection(0, true),
            protection(at(1), false),
            protection(boundary, true),
        ],
    );
    assert_eq!(p.streak, 0);
    assert_eq!(p.freezes, 1);
}

#[test]
fn future_reviews_and_preferences_cannot_award_a_freeze_early() {
    let reviews = perfect_history(&[1]);
    let completion = first_completion(&reviews, 1);
    let changes = [protection(0, true)];
    let before = protected(&reviews, completion - 1, &changes);
    assert_eq!(before.freezes, 0);
    assert!(!before.freeze_earned_today);
    assert_eq!(protected(&reviews, completion, &changes).freezes, 1);
    let future = protected(&reviews, at(1), &[protection(at(2), true)]);
    assert!(!future.freezes_enabled);
    assert_eq!(future.stored_freezes, 0);
    assert_eq!(
        changes,
        [protection(0, true)],
        "preview and replay never mutate preferences"
    );
}

#[test]
fn preference_changes_at_the_same_time_use_the_latest_save() {
    let reviews = perfect_history(&[1]);
    let completion = first_completion(&reviews, 1);
    let changes = [protection(completion, true), protection(completion, false)];
    assert_eq!(protected(&reviews, at(1), &changes).stored_freezes, 0);
    let changes = [protection(completion, false), protection(completion, true)];
    assert_eq!(protected(&reviews, at(1), &changes).freezes, 1);
}

#[test]
fn combo_breaks_on_gap() {
    let mut reviews = reviews_on(5, 10, 0);
    let mut later = reviews_on(5, 4, 100);
    for r in &mut later {
        r.id += 3_600_000;
    }
    reviews.extend(later);
    let p = compute("a", "a", &reviews, &utc(), &Week::default(), at(5));
    assert_eq!(p.today.max_combo, 10);
    assert_eq!(p.today.current_combo, 4);
    assert_eq!(p.today.reviews, 14);
}

#[test]
fn answer_button_never_matters() {
    let r = Review {
        id: 0,
        cid: 1,
        last_ivl: 30,
        time_ms: 4_000,
        kind: 1,
    };
    assert_eq!(review_base_xp(&r), 15);
}

#[test]
fn repeating_a_card_keeps_the_same_xp_as_answering_different_cards() {
    let answer = |day: i64, index: i64, cid: i64| Review {
        id: day * DAY_MS + NOON + index * 10_000,
        cid,
        last_ivl: 0,
        time_ms: 5_000,
        kind: 1,
    };
    let same_card: Vec<Review> = (0..6).map(|i| answer(1, i, 7)).collect();
    let (_, _, repeated) = collect_days(&same_card, &utc());
    let varied: Vec<Review> = (0..6).map(|i| answer(1, i, 7 + i)).collect();
    let (_, _, spread) = collect_days(&varied, &utc());
    let (repeated, spread) = (values(&repeated), values(&spread));
    assert_eq!(repeated, spread, "card identity does not reduce review XP");
    assert!(repeated[5].1 > repeated[0].1, "the combo bonus still grows");

    let (_, _, fresh) = collect_days(&[answer(1, 0, 7), answer(2, 0, 7)], &utc());
    let fresh = values(&fresh);
    assert_eq!(fresh[0].1, fresh[1].1, "a new day resets the combo");
}

#[test]
fn learning_and_relearning_keep_the_original_rate_for_every_step() {
    for kind in [0, 2] {
        let steps: Vec<Review> = (0..3)
            .map(|index| Review {
                id: DAY_MS + NOON + index * 600_000,
                cid: 7,
                last_ivl: 0,
                time_ms: 5_000,
                kind,
            })
            .collect();
        let (_, _, earned) = collect_days(&steps, &utc());
        for (_, xp) in values(&earned) {
            assert!((xp - 6.03).abs() < 1e-9, "kind {kind} earned {xp}");
        }
    }
}

#[test]
fn records_keep_the_best_hour_day_week_month_and_year() {
    let mut reviews = reviews_on(1, 5, 100);
    reviews.extend(reviews_on(40, 30, 200));
    reviews.extend(reviews_on(41, 5, 300));
    reviews.extend(reviews_on(400, 5, 400));
    let p = compute("a", "a", &reviews, &utc(), &Week::default(), at(400));

    assert_eq!(p.records.day.reviews, 30, "the busiest day is the record");
    assert_eq!(p.records.day.at, 40 * DAY_MS + 4 * 3_600_000);
    assert!(p.records.day.xp >= p.periods.day);
    assert_eq!(p.records.week.reviews, 35, "day 40 and 41 share a week");
    assert!(p.records.week.xp > p.records.day.xp);
    assert_eq!(p.records.month.reviews, 35);
    assert_eq!(p.records.year.reviews, 40, "days 1, 40 and 41 share a year");
    assert_eq!(p.records.hour.reviews, 30, "one sitting, one hour");
    assert!(p.records.hour.xp > 0 && p.records.hour.xp <= p.records.day.xp);
}

#[test]
fn the_best_hour_is_any_sixty_minutes_not_a_clock_hour() {
    let spread = |minutes: &[i64]| -> Vec<Review> {
        minutes
            .iter()
            .enumerate()
            .map(|(index, minute)| Review {
                id: DAY_MS + NOON + minute * 60_000,
                cid: 500 + index as i64,
                last_ivl: 0,
                time_ms: 5_000,
                kind: 1,
            })
            .collect()
    };
    let reviews = spread(&[0, 50, 55, 58, 59, 200]);
    let p = compute("a", "a", &reviews, &utc(), &Week::default(), at(2));
    assert_eq!(
        p.records.hour.reviews, 5,
        "a window that straddles the clock hour still counts"
    );
    assert_eq!(p.records.hour.at, DAY_MS + NOON);

    let alone = compute("a", "a", &spread(&[0]), &utc(), &Week::default(), at(2));
    assert_eq!(alone.records.hour.reviews, 1);
    let none = compute("a", "a", &[], &utc(), &Week::default(), at(2));
    assert_eq!(none.records, Records::default());
}

#[test]
fn a_nudge_only_speaks_when_something_is_within_reach() {
    let reviews = reviews_on(1, 12, 900);
    let mut profile = compute("a", "Ana", &reviews, &utc(), &Week::default(), at(1));
    profile.local_hour = 12;
    let bodies = |profile: &Profile, ahead: Option<(&str, u64)>| {
        nudges(profile, ahead)
            .into_iter()
            .map(|n| n.body)
            .collect::<Vec<_>>()
    };

    let just_ahead = profile.week_xp + 60;
    let said = bodies(&profile, Some(("Cerro", just_ahead)));
    assert!(
        said.iter().any(|body| body.contains("60 XP behind Cerro")),
        "{said:?}"
    );
    assert!(
        said.iter().any(|body| body.contains("more reviews")),
        "the gap is also told in reviews: {said:?}"
    );
    assert!(bodies(&profile, Some(("Cerro", profile.week_xp + 5_000))).is_empty());
    assert!(
        bodies(&profile, Some(("Cerro", 0))).is_empty(),
        "nobody chases from the front"
    );

    profile.xp_into_level = profile.xp_for_next - 40;
    let climbing = bodies(&profile, None);
    assert_eq!(climbing.len(), 1);
    assert!(climbing[0].contains("40 XP away"), "{climbing:?}");
    let pace = (profile.today.xp as f64 / profile.today.reviews as f64).max(1.0);
    let more = (40.0 / pace).ceil() as u64;
    assert_eq!(
        climbing[0],
        format!(
            "Level {} is 40 XP away, about {more} more {}.",
            profile.level + 1,
            if more == 1 { "review" } else { "reviews" }
        ),
        "a level is told in reviews as well"
    );

    profile.records.day.xp = profile.today.xp + 30;
    let all_three = nudges(&profile, Some(("Cerro", just_ahead)));
    assert_eq!(all_three.len(), 3, "each rule may speak once a day");
    let keys: Vec<&str> = all_three.iter().map(|n| n.key.as_str()).collect();
    assert!(
        keys.iter()
            .all(|key| key.ends_with(&profile.day.to_string()))
    );
    assert_eq!(
        all_three
            .iter()
            .map(|n| n.key.clone())
            .collect::<HashSet<_>>()
            .len(),
        3
    );
}

#[test]
fn a_nudge_stays_quiet_at_night_and_on_a_day_without_studying() {
    let reviews = reviews_on(1, 12, 900);
    let mut profile = compute("a", "Ana", &reviews, &utc(), &Week::default(), at(1));
    profile.xp_into_level = profile.xp_for_next - 40;
    profile.local_hour = 12;
    assert_eq!(nudges(&profile, None).len(), 1);

    for hour in [0, 3, 8, 22, 23] {
        profile.local_hour = hour;
        assert!(nudges(&profile, None).is_empty(), "nothing at {hour}:00");
    }
    profile.local_hour = 12;
    profile.today.reviews = 0;
    assert!(
        nudges(&profile, None).is_empty(),
        "a nudge cheers studying on, it does not ask for it"
    );
}

#[test]
fn quests_are_deterministic_and_distinct() {
    let reviews = history(&[1, 2, 3]);
    let a = compute("a", "a", &reviews, &utc(), &Week::default(), at(3));
    let b = compute("a", "a", &reviews, &utc(), &Week::default(), at(3));
    assert_eq!(a.quests.len(), 3);
    let titles = |p: &Profile| p.quests.iter().map(|q| q.title.clone()).collect::<Vec<_>>();
    assert_eq!(titles(&a), titles(&b));
    let unique: HashSet<_> = titles(&a).into_iter().collect();
    assert_eq!(unique.len(), 3);
}

#[test]
fn xp_sums_into_heatmap_and_total() {
    let p = compute(
        "a",
        "a",
        &history(&[1, 2, 3]),
        &utc(),
        &Week::default(),
        at(3),
    );
    let heat: u64 = p.heatmap.iter().map(|c| c.xp).sum();
    assert_eq!(heat, p.xp_total);
    assert!(p.xp_total > 0);
    assert_eq!(p.week_xp, p.xp_total);
}

#[test]
fn achievements_unlock_with_events() {
    let reviews: Vec<Review> = reviews_on(1, 120, 0);
    let p = compute("a", "a", &reviews, &utc(), &Week::default(), at(1));
    let first = p
        .achievements
        .iter()
        .find(|a| a.id == "reviews-100")
        .unwrap();
    assert_eq!(first.unlocked.as_deref(), Some("1970-01-02"));
    assert!(p.events.iter().any(|e| e.key == "achievement:reviews-100"));
    assert!(
        p.events
            .iter()
            .any(|e| e.key == "achievement:dayreviews-100")
    );
}

#[test]
fn calendar_and_memory_achievements() {
    let mut reviews = reviews_on(0, 5, 0);
    reviews.extend(reviews_on(2, 5, 100));
    reviews.extend(reviews_on(40, 5, 200));
    let mut fast = reviews_on(365, 120, 1000);
    for r in &mut fast {
        r.time_ms = 3_000;
    }
    fast[0].last_ivl = 400;
    reviews.extend(fast);
    let p = compute("a", "a", &reviews, &utc(), &Week::default(), at(365));
    let unlocked = |id: &str| {
        p.achievements
            .iter()
            .find(|a| a.id == id)
            .unwrap_or_else(|| panic!("no achievement {id}"))
            .unlocked
            .is_some()
    };
    for id in [
        "comebacks-1",
        "anniversaries-1",
        "years-1",
        "newyeardays-1",
        "maxinterval-365",
        "fastdays-1",
        "dayreviews-100",
    ] {
        assert!(unlocked(id), "{id} should be unlocked");
    }
    assert!(!unlocked("comebacks-3"));
    assert!(!unlocked("maxinterval-1825"));
    let weekend = p
        .achievements
        .iter()
        .find(|a| a.id == "weekenddays-10")
        .unwrap();
    assert_eq!(weekend.progress, 1);
}

#[test]
fn achievement_ids_are_unique() {
    let p = compute("a", "a", &[], &utc(), &Week::default(), at(1));
    let ids: HashSet<_> = p.achievements.iter().map(|a| a.id.clone()).collect();
    assert_eq!(ids.len(), p.achievements.len());
}

#[test]
fn empty_history() {
    let p = compute("a", "a", &[], &utc(), &Week::default(), at(50));
    assert_eq!(p.level, 1);
    assert_eq!(p.streak, 0);
    assert_eq!(p.quests.len(), 3);
    assert_eq!(p.heatmap.len(), HEATMAP_DAYS as usize);
}
