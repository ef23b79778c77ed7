//! What players are told after an upload.

use ankiquest::feedback::{grouped, rank_change, streak_warning, Place};
use ankiquest::records::HOUR_MS;

fn place(user: &str, week_xp: u64) -> Place<'_> {
    Place {
        user,
        display: user,
        week_xp,
    }
}

fn order(users: &[&str]) -> Vec<String> {
    users.iter().map(|user| user.to_string()).collect()
}

#[test]
fn taking_the_crown_names_who_was_passed() {
    let board = [place("me", 1500), place("ana", 1200), place("bo", 10)];
    let notice = rank_change(&order(&["ana", "me", "bo"]), &board, "me").unwrap();
    assert_eq!(notice.title, "👑 You took the crown");
    assert_eq!(notice.body, "You passed ana.");
}

#[test]
fn climbing_reports_the_gap_to_the_next_player() {
    let board = [place("ana", 3000), place("me", 1500), place("bo", 10)];
    let notice = rank_change(&order(&["ana", "bo", "me"]), &board, "me").unwrap();
    assert_eq!(notice.title, "▲ You're now #2");
    assert_eq!(notice.body, "You passed bo. 1,500 XP behind ana.");
}

#[test]
fn falling_names_the_overtakers() {
    let board = [place("ana", 3000), place("me", 1500)];
    let notice = rank_change(&order(&["me", "ana"]), &board, "me").unwrap();
    assert_eq!(notice.title, "👑 ana took the crown");
    assert_eq!(notice.body, "You're now #2. 1,500 XP behind ana.");
    let board = [place("ana", 30), place("bo", 20), place("me", 10)];
    let notice = rank_change(&order(&["ana", "me", "bo"]), &board, "me").unwrap();
    assert_eq!(notice.title, "▼ bo passed you");
    assert_eq!(notice.body, "You're now #3. 10 XP behind bo.");
}

#[test]
fn no_change_unknown_history_or_no_xp_stays_quiet() {
    let board = [place("ana", 30), place("me", 10)];
    assert!(rank_change(&order(&["ana", "me"]), &board, "me").is_none());
    assert!(rank_change(&[], &board, "me").is_none());
    assert!(rank_change(&order(&["ana"]), &board, "me").is_none());
    let board = [place("ana", 30), place("me", 0)];
    assert!(rank_change(&order(&["me", "ana"]), &board, "me").is_none());
}

#[test]
fn streak_warning_rounds_hours_up_and_mentions_freezes() {
    let warning = streak_warning(12, 1, 10 * HOUR_MS, 7 * HOUR_MS + 1);
    assert_eq!(warning.title, "🔥 Your 12 day streak ends in 3h");
    assert_eq!(warning.body, "A freeze is available if you need a break.");
    let warning = streak_warning(3, 0, HOUR_MS, HOUR_MS);
    assert_eq!(warning.title, "🔥 Your 3 day streak ends in 1h");
    assert!(warning.body.starts_with("A little study"));
}

#[test]
fn thousands_are_grouped() {
    assert_eq!(grouped(0), "0");
    assert_eq!(grouped(999), "999");
    assert_eq!(grouped(1000), "1,000");
    assert_eq!(grouped(1234567), "1,234,567");
}
