use ankiquest::calendar::{civil, date_string, floor_div, floor_mod, is_weekend, Clock};
use ankiquest::double::Double;
use ankiquest::levels::{level_for, level_need};
use ankiquest::order::{comes_before, insert_ascending};
use ankiquest::pieces::{
    contains, ends_with, parse_number, replace, rsplit_once, split, split_once, strip_prefix,
    strip_suffix,
};
use ankiquest::quests::{mix, seed_of};
use ankiquest::text::{join, number, padded_number, signed_number, trim};
use ankiquest::week::{Week, WeekError};
use chrono::{Datelike, NaiveDate, TimeZone, Timelike};

fn value(x: Double) -> f64 {
    let (negative, mantissa, exponent) = x.parts();
    let magnitude = mantissa as f64 * 2f64.powi(exponent as i32 - 1074);
    if negative {
        -magnitude
    } else {
        magnitude
    }
}

/// Numbers without an order, the same in each run.
fn numbers(count: u64, below: u64) -> Vec<u64> {
    (0..count).map(|i| mix(i) % below).collect()
}

#[test]
fn doubles_are_the_numbers_of_the_machine() {
    let some = numbers(60, 1_000_000);
    for a in &some {
        for b in numbers(40, 70_000) {
            let (x, y) = (Double::from_u64(*a), Double::from_u64(b + 1));
            let (p, q) = (*a as f64, (b + 1) as f64);
            assert_eq!(value(x), p);
            assert_eq!(value(x.over(y)), p / q);
            let (r, s) = (x.over(y), y.over(Double::from_u64(7)));
            let (t, u) = (p / q, q / 7.0);
            assert_eq!(value(r.plus(s)), t + u);
            assert_eq!(value(r.minus(s)), t - u);
            assert_eq!(value(r.times(s)), t * u);
            assert_eq!(r.less(s), t < u);
            assert_eq!(value(r.max(s)), t.max(u));
            assert_eq!(r.round(), t.round() as u64);
            assert_eq!(r.ceil(), t.ceil() as u64);
        }
    }
    assert_eq!(value(Double::from_i64(-5)), -5.0);
    assert_eq!(value(Double::from_u64(u64::MAX)), u64::MAX as f64);
    assert_eq!(value(Double::zero().negated()), 0.0);
    assert_eq!(Double::from_i64(-5).round(), 0);
}

#[test]
fn levels_take_what_the_formula_says() {
    for level in 1..5000u64 {
        assert_eq!(
            level_need(level),
            ((level as f64).powf(1.5) * 10.0).round() as u64 * 10
        );
    }
    assert_eq!(level_need(1), 100);
    assert_eq!(level_for(0), (1, 0, 100));
    assert_eq!(level_for(99), (1, 99, 100));
    assert_eq!(level_for(100), (2, 0, level_need(2)));
}

#[test]
fn every_xp_stands_at_one_level() {
    let mut below = 0;
    for level in 1..60 {
        assert_eq!(level_for(below), (level, 0, level_need(level)));
        below += level_need(level);
        assert_eq!(
            level_for(below - 1),
            (level, level_need(level) - 1, level_need(level))
        );
    }
}

#[test]
fn dates_are_those_of_the_calendar() {
    let epoch = NaiveDate::from_ymd_opt(1970, 1, 1).unwrap();
    for n in numbers(400, 80_000) {
        let day = n as i64 - 40_000;
        let date = epoch + chrono::Duration::days(day);
        assert_eq!(
            civil(day),
            (date.year() as i64, date.month() as i64, date.day() as i64)
        );
        assert_eq!(date_string(day), date.format("%Y-%m-%d").to_string());
        assert_eq!(
            is_weekend(day),
            date.weekday().num_days_from_monday() >= 5
        );
    }
}

#[test]
fn division_rounds_down() {
    assert_eq!((floor_div(-1, 86_400), floor_mod(-1, 86_400)), (-1, 86_399));
    assert_eq!((floor_div(86_400, 86_400), floor_mod(86_400, 86_400)), (1, 0));
}

#[test]
fn a_day_holds_the_instants_from_its_start() {
    let clock = Clock {
        offset_west_min: -120,
        rollover_hour: 4,
    };
    for n in numbers(200, 1_000_000_000) {
        let ms = n as i64 * 2000 - 1_000_000_000_000;
        let day = clock.day(ms);
        assert!(clock.day_start_ms(day) <= ms && ms < clock.day_start_ms(day + 1));
        assert!((0..24).contains(&clock.hour(ms)));
    }
}

#[test]
fn the_week_follows_its_time_zone() {
    assert!(Week::new("Europe/Nowhere", 4).is_none());
    assert!(matches!(
        Week::configured("Europe/Nowhere", 4),
        Err(WeekError::UnknownZone)
    ));
    assert!(matches!(Week::configured("UTC", 24), Err(WeekError::NoHour)));
    assert_eq!(Week::configured("UTC", 23).unwrap().rollover_hour, 23);
    let week = Week::new("Europe/Berlin", 4).unwrap();
    let berlin = chrono_tz::Europe::Berlin;
    for n in numbers(300, 1_000_000_000) {
        let ms = 1_000_000_000_000 + n as i64 * 1000;
        let local = berlin.timestamp_millis_opt(ms).unwrap() - chrono::Duration::hours(4);
        let epoch = NaiveDate::from_ymd_opt(1970, 1, 1).unwrap();
        if local.hour() > 1 && local.hour() < 20 {
            let days = (local.date_naive() - epoch).num_days();
            assert_eq!(week.competition_date(ms), days);
            let iso = local.date_naive().iso_week();
            assert_eq!(week.of(ms), (iso.year(), iso.week()));
            assert_eq!(week.month_of(ms), (local.year(), local.month()));
            assert_eq!(week.year_of(ms), local.year());
        }
        assert!(week.boundary_ms(week.competition_date(ms)) <= ms);
        let end = week.end_after(ms);
        assert!(ms < end);
        assert_ne!(week.of(ms), week.of(end));
        assert_eq!(week.of(end - 1), week.of(ms));
    }
}

#[test]
fn numbers_are_written_out() {
    assert_eq!(number(0), "0");
    assert_eq!(number(u64::MAX), u64::MAX.to_string());
    assert_eq!(signed_number(i64::MIN), i64::MIN.to_string());
    assert_eq!(padded_number(7, 2), "07");
    assert_eq!(padded_number(123, 2), "123");
}

#[test]
fn texts_are_taken_apart_as_usual() {
    assert_eq!(trim("  \u{2003}a b\n"), "a b");
    assert_eq!(join(&vec!["a".to_string(), "b".to_string()], ", "), "a, b");
    let pair = |a: &str, b: &str| Some((a.to_string(), b.to_string()));
    for (text, by) in [("a::b::c", "::"), ("a:::b", "::"), ("abc", "::"), ("::", "::"), ("", ",")] {
        let owned = |x: Option<(&str, &str)>| x.map(|(a, b)| (a.to_string(), b.to_string()));
        assert_eq!(split_once(text, by), owned(text.split_once(by)));
        assert_eq!(rsplit_once(text, by), owned(text.rsplit_once(by)));
        assert_eq!(split(text, by), text.split(by).collect::<Vec<_>>());
        assert_eq!(replace(text, by, "+"), text.replace(by, "+"));
        assert_eq!(contains(text, by), text.contains(by));
        assert_eq!(ends_with(text, by), text.ends_with(by));
        assert_eq!(strip_prefix(text, "a").as_deref(), text.strip_prefix("a"));
        assert_eq!(strip_suffix(text, "c").as_deref(), text.strip_suffix("c"));
    }
    assert_eq!(split_once("k=v=w", "="), pair("k", "v=w"));
    assert_eq!(rsplit_once("k=v=w", "="), pair("k=v", "w"));
    assert_eq!(parse_number("0"), Some(0));
    assert_eq!(parse_number("17"), Some(17));
    assert_eq!(parse_number(""), None);
    assert_eq!(parse_number("1x"), None);
    assert_eq!(parse_number("99999999999999999999999"), None);
}

#[test]
fn texts_are_ordered_by_their_characters() {
    let mut list: Vec<String> = Vec::new();
    for text in ["b", "", "ab", "a", "\u{1f600}", "\u{e9}", "B", "a"] {
        insert_ascending(&mut list, text.to_string());
    }
    let mut sorted = list.clone();
    sorted.sort();
    assert_eq!(list, sorted);
    assert!(comes_before("a", "ab") && !comes_before("ab", "a") && !comes_before("a", "a"));
}

#[test]
fn seeds_differ_from_player_to_player() {
    assert_eq!(seed_of("hill"), seed_of("hill"));
    assert_ne!(seed_of("hill"), seed_of("cerro"));
    assert_ne!(mix(1), mix(2));
}
