//! Everything the clients say about the game, worded once here so the phone, the desktop
//! add-on and the website cannot drift apart.

use vstd::prelude::*;
use crate::calendar::{fits, floor_div};
use crate::decks::is_text;
use crate::records::HOUR_MS;
use crate::game::Profile;
use crate::order::{ascending, insert_ascending, law_order_is_unique};
use crate::table::{find, first, has, kept, rows};
use crate::text::{around, characters, decimal, join, joined, joined_by, number, same, signed_decimal, signed_number, texts, trim, trimmed};

verus! {

/// A notice, as text.
#[verifier::ext_equal]
pub struct NoticeModel {
    pub title: Seq<char>,
    pub body: Seq<char>,
}

/// Something to tell a player.
#[derive(Clone, Debug)]
pub struct Notice {
    pub title: String,
    pub body: String,
}

impl View for Notice {
    type V = NoticeModel;

    open spec fn view(&self) -> NoticeModel {
        NoticeModel { title: self.title@, body: self.body@ }
    }
}

/// Digits with a comma before each group of three from the right, of which
/// `after` more follow.
pub open spec fn with_commas(digits: Seq<char>, after: nat) -> Seq<char>
    decreases digits.len(),
{
    if digits.len() == 0 {
        Seq::empty()
    } else {
        let before = with_commas(digits.drop_last(), after + 1);
        if digits.len() > 1 && (after + 1) % 3 == 0 {
            before.push(',').push(digits.last())
        } else {
            before.push(digits.last())
        }
    }
}

/// A number with its thousands set apart.
pub fn grouped(value: u64) -> (res: String)
    ensures
        res@ == with_commas(decimal(value as nat), 0),
{
    let text = number(value);
    let digits = characters(text.as_str());
    let mut out = String::new();
    let mut index: usize = 0;
    assert(digits@.take(0) =~= Seq::<char>::empty());
    while index < digits.len()
        invariant
            index <= digits@.len(),
            out@ == with_commas(digits@.take(index as int), (digits@.len() - index) as nat),
        decreases digits@.len() - index,
    {
        proof {
            let next = digits@.take(index + 1);
            assert(next.drop_last() =~= digits@.take(index as int));
            assert(next.last() == digits@[index as int]);
        }
        if index > 0 && (digits.len() - index) % 3 == 0 {
            out.push(',');
        }
        out.push(digits[index]);
        index = index + 1;
    }
    assert(digits@.take(index as int) =~= digits@);
    out
}

/// The hours until an instant, begun ones counted in full, at least one.
pub open spec fn hours_until(end: int, now: int) -> int {
    ((if end - now < 1 {
        1
    } else {
        end - now
    }) + HOUR_MS - 1) / (HOUR_MS as int)
}

/// The warning that a streak is about to end.
pub open spec fn streak_warning_of(streak: nat, freezes: nat, day_ends_at: int, now: int) -> NoticeModel {
    NoticeModel {
        title: "🔥 Your "@ + decimal(streak) + " day streak ends in "@ + signed_decimal(hours_until(day_ends_at, now))
            + "h"@,
        body: if freezes > 0 {
            "A freeze is available if you need a break."@
        } else {
            "A little study is waiting when you have time. Your previous progress is still yours."@
        },
    }
}

/// The warning that a streak is about to end.
pub fn streak_warning(streak: u64, freezes: u32, day_ends_at: i64, now_ms: i64) -> (res: Notice)
    requires
        fits(day_ends_at - now_ms),
        fits(day_ends_at - now_ms + HOUR_MS),
    ensures
        res@ == streak_warning_of(streak as nat, freezes as nat, day_ends_at as int, now_ms as int),
{
    let left: i64 = if day_ends_at - now_ms < 1 {
        1
    } else {
        day_ends_at - now_ms
    };
    let hours: i64 = floor_div(left + HOUR_MS - 1, HOUR_MS);
    let mut title = around("🔥 Your ", streak, " day streak ends in ");
    let h = signed_number(hours);
    title.append(h.as_str());
    title.append("h");
    let body = if freezes > 0 {
        "A freeze is available if you need a break."
    } else {
        "A little study is waiting when you have time. Your previous progress is still yours."
    };
    Notice { title, body: body.to_owned() }
}

/// A row of the weekly board, as text and numbers.
pub struct PlaceModel {
    pub user: Seq<char>,
    pub display: Seq<char>,
    pub week_xp: nat,
}

/// One row of the weekly board, in board order.
pub struct Place<'a> {
    pub user: &'a str,
    pub display: &'a str,
    pub week_xp: u64,
}

impl<'a> View for Place<'a> {
    type V = PlaceModel;

    open spec fn view(&self) -> PlaceModel {
        PlaceModel { user: self.user@, display: self.display@, week_xp: self.week_xp as nat }
    }
}

/// Where a player stands on the board.
pub open spec fn rank_of(board: Seq<PlaceModel>, user: Seq<char>) -> Option<int> {
    first(board, |p: PlaceModel| p.user == user)
}

/// Where a player stood.
pub open spec fn rank_in(previous: Seq<Seq<char>>, user: Seq<char>) -> Option<int> {
    first(previous, is_text(user))
}

/// The name under which a player is shown.
pub open spec fn display_on(board: Seq<PlaceModel>, user: Seq<char>) -> Seq<char> {
    match rank_of(board, user) {
        Some(i) => board[i].display,
        None => user,
    }
}

/// The names of some players.
pub open spec fn names_on(board: Seq<PlaceModel>, users: Seq<Seq<char>>) -> Seq<char> {
    joined_by(users.map_values(|u: Seq<char>| display_on(board, u)), ", "@)
}

/// How far the next player is ahead.
pub open spec fn gap_text(board: Seq<PlaceModel>, rank: int) -> Seq<char> {
    if rank > 0 {
        let ahead = board[rank - 1];
        let gap = if ahead.week_xp > board[rank].week_xp {
            (ahead.week_xp - board[rank].week_xp) as nat
        } else {
            0
        };
        " "@ + with_commas(decimal(gap), 0) + " XP behind "@ + ahead.display + "."@
    } else {
        Seq::empty()
    }
}

/// The players who were ahead and no longer are.
pub open spec fn passed_by(previous: Seq<Seq<char>>, board: Seq<PlaceModel>, before: int, rank: int) -> Seq<Seq<char>> {
    kept(previous.take(before), |u: Seq<char>| rank_of(board, u) matches Some(at) && at > rank)
}

/// The players who were behind and are ahead now.
pub open spec fn overtakers(previous: Seq<Seq<char>>, board: Seq<PlaceModel>, before: int, rank: int) -> Seq<Seq<char>> {
    kept(
        board.take(rank).map_values(|p: PlaceModel| p.user),
        |u: Seq<char>| rank_in(previous, u) matches Some(at) && at > before,
    )
}

/// What is said about a climb.
pub open spec fn climb_notice(previous: Seq<Seq<char>>, board: Seq<PlaceModel>, before: int, rank: int) -> NoticeModel {
    let passed = passed_by(previous, board, before, rank);
    NoticeModel {
        title: if rank == 0 {
            "👑 You took the crown"@
        } else {
            "▲ You're now #"@ + decimal((rank + 1) as nat)
        },
        body: trimmed(
            (if passed.len() == 0 {
                Seq::empty()
            } else {
                "You passed "@ + names_on(board, passed) + "."@
            }) + gap_text(board, rank),
        ),
    }
}

/// What is said about a fall.
pub open spec fn fall_notice(previous: Seq<Seq<char>>, board: Seq<PlaceModel>, before: int, rank: int) -> NoticeModel {
    let ahead = overtakers(previous, board, before, rank);
    let who = if ahead.len() == 0 {
        "Someone"@
    } else {
        names_on(board, ahead)
    };
    NoticeModel {
        title: if before == 0 {
            "👑 "@ + who + " took the crown"@
        } else {
            "▼ "@ + who + " passed you"@
        },
        body: trimmed("You're now #"@ + decimal((rank + 1) as nat) + "."@ + gap_text(board, rank)),
    }
}

/// What is said about a move on the weekly board: nothing where there was
/// none, where it is not known, or where no XP was earned.
pub open spec fn rank_notice(previous: Seq<Seq<char>>, board: Seq<PlaceModel>, me: Seq<char>) -> Option<NoticeModel> {
    match (rank_of(board, me), rank_in(previous, me)) {
        (Some(rank), Some(before)) => if rank == before || board[rank].week_xp == 0 {
            None
        } else if rank < before {
            Some(climb_notice(previous, board, before, rank))
        } else {
            Some(fall_notice(previous, board, before, rank))
        },
        _ => None,
    }
}

fn board_rank(board: &[Place], user: &str) -> (res: Option<usize>)
    ensures
        match res {
            Some(i) => rank_of(rows(board@), user@) == Some(i as int) && i < board@.len(),
            None => rank_of(rows(board@), user@) is None,
        },
{
    let is_user = |p: &Place| -> (b: bool)
        ensures
            b == (p@.user == user@),
    {
        same(p.user, user)
    };
    find(board, is_user, Ghost(|p: PlaceModel| p.user == user@))
}

fn previous_rank(previous: &[String], user: &str) -> (res: Option<usize>)
    ensures
        match res {
            Some(i) => rank_in(rows(previous@), user@) == Some(i as int) && i < previous@.len(),
            None => rank_in(rows(previous@), user@) is None,
        },
{
    let is_user = |u: &String| -> (b: bool)
        ensures
            b == (u@ == user@),
    {
        same(u.as_str(), user)
    };
    find(previous, is_user, Ghost(is_text(user@)))
}

fn shown_name(board: &[Place], user: &str) -> (res: String)
    ensures
        res@ == display_on(rows(board@), user@),
{
    match board_rank(board, user) {
        Some(i) => board[i].display.to_owned(),
        None => user.to_owned(),
    }
}

fn gap_of(board: &[Place], rank: usize) -> (res: String)
    requires
        rank < board@.len(),
    ensures
        res@ == gap_text(rows(board@), rank as int),
{
    if rank > 0 {
        let ahead: u64 = board[rank - 1].week_xp;
        let mine: u64 = board[rank].week_xp;
        let gap: u64 = if ahead > mine {
            ahead - mine
        } else {
            0
        };
        let mut s = joined(" ", grouped(gap).as_str());
        s.append(" XP behind ");
        s.append(board[rank - 1].display);
        s.append(".");
        s
    } else {
        let s = String::new();
        assert(s@ =~= Seq::<char>::empty());
        s
    }
}

/// The shown names of the players who were ahead and no longer are.
fn passed_names(previous: &[String], board: &[Place], before: usize, rank: usize) -> (res: Vec<String>)
    requires
        before <= previous@.len(),
    ensures
        texts(res@) == passed_by(rows(previous@), rows(board@), before as int, rank as int).map_values(
            |u: Seq<char>| display_on(rows(board@), u),
        ),
{
    let ghost all = rows(previous@);
    let ghost places = rows(board@);
    let ghost test = |u: Seq<char>| rank_of(places, u) matches Some(at) && at > rank;
    let ghost shown = |u: Seq<char>| display_on(places, u);
    let mut names: Vec<String> = Vec::new();
    let mut i: usize = 0;
    assert(all.take(0) =~= Seq::<Seq<char>>::empty());
    assert(texts(names@) =~= kept(all.take(0), test).map_values(shown));
    while i < before
        invariant
            all == rows(previous@),
            places == rows(board@),
            test == (|u: Seq<char>| rank_of(places, u) matches Some(at) && at > rank),
            shown == (|u: Seq<char>| display_on(places, u)),
            i <= before <= previous@.len(),
            texts(names@) == kept(all.take(i as int), test).map_values(shown),
        decreases before - i,
    {
        let user = previous[i].as_str();
        let ghost names0 = names@;
        proof {
            assert(all.take(i + 1).drop_last() =~= all.take(i as int));
            assert(all.take(i + 1).last() == user@);
        }
        let behind = match board_rank(board, user) {
            Some(at) => at > rank,
            None => false,
        };
        if behind {
            let name = shown_name(board, user);
            let ghost n = name@;
            names.push(name);
            proof {
                assert(texts(names@) =~= texts(names0).push(n));
                assert(texts(names@) =~= kept(all.take(i + 1), test).map_values(shown));
            }
        }
        i = i + 1;
    }
    names
}

/// The shown names of the players who were behind and are ahead now.
fn overtaker_names(previous: &[String], board: &[Place], before: usize, rank: usize) -> (res: Vec<String>)
    requires
        rank <= board@.len(),
    ensures
        texts(res@) == overtakers(rows(previous@), rows(board@), before as int, rank as int).map_values(
            |u: Seq<char>| display_on(rows(board@), u),
        ),
{
    let ghost all = rows(previous@);
    let ghost places = rows(board@);
    let ghost users = places.take(rank as int).map_values(|p: PlaceModel| p.user);
    let ghost test = |u: Seq<char>| rank_in(all, u) matches Some(at) && at > before;
    let ghost shown = |u: Seq<char>| display_on(places, u);
    let mut names: Vec<String> = Vec::new();
    let mut i: usize = 0;
    assert(users.take(0) =~= Seq::<Seq<char>>::empty());
    assert(texts(names@) =~= kept(users.take(0), test).map_values(shown));
    while i < rank
        invariant
            all == rows(previous@),
            places == rows(board@),
            users == places.take(rank as int).map_values(|p: PlaceModel| p.user),
            test == (|u: Seq<char>| rank_in(all, u) matches Some(at) && at > before),
            shown == (|u: Seq<char>| display_on(places, u)),
            i <= rank <= board@.len(),
            texts(names@) == kept(users.take(i as int), test).map_values(shown),
        decreases rank - i,
    {
        let user = board[i].user;
        let ghost names0 = names@;
        proof {
            assert(users[i as int] == user@);
            assert(users.take(i + 1).drop_last() =~= users.take(i as int));
            assert(users.take(i + 1).last() == user@);
        }
        let ahead = match previous_rank(previous, user) {
            Some(at) => at > before,
            None => false,
        };
        if ahead {
            let name = shown_name(board, user);
            let ghost n = name@;
            names.push(name);
            proof {
                assert(texts(names@) =~= texts(names0).push(n));
                assert(texts(names@) =~= kept(users.take(i + 1), test).map_values(shown));
            }
        }
        i = i + 1;
    }
    assert(users.take(i as int) =~= users);
    names
}

/// How `me` moved on the weekly board since a device last saw `previous`.
pub fn rank_change(previous: &[String], board: &[Place], me: &str) -> (res: Option<Notice>)
    requires
        board@.len() < usize::MAX,
    ensures
        match res {
            Some(notice) => rank_notice(rows(previous@), rows(board@), me@) == Some(notice@),
            None => rank_notice(rows(previous@), rows(board@), me@) is None,
        },
{
    let rank: usize = match board_rank(board, me) {
        Some(i) => i,
        None => return None,
    };
    let before: usize = match previous_rank(previous, me) {
        Some(i) => i,
        None => return None,
    };
    if rank == before || board[rank].week_xp == 0 {
        return None;
    }
    let gap = gap_of(board, rank);
    if rank < before {
        let names = passed_names(previous, board, before, rank);
        let title = if rank == 0 {
            "👑 You took the crown".to_owned()
        } else {
            joined("▲ You're now #", number((rank + 1) as u64).as_str())
        };
        proof {
            assert(texts(names@).len() == names@.len());
        }
        let mut body = String::new();
        if names.len() > 0 {
            body.append("You passed ");
            body.append(join(&names, ", ").as_str());
            body.append(".");
            assert(body@ =~= "You passed "@ + joined_by(texts(names@), ", "@) + "."@);
        } else {
            assert(body@ =~= Seq::<char>::empty());
        }
        body.append(gap.as_str());
        let notice = Notice { title, body: trim(body.as_str()) };
        assert(notice@ =~= climb_notice(rows(previous@), rows(board@), before as int, rank as int));
        Some(notice)
    } else {
        let names = overtaker_names(previous, board, before, rank);
        proof {
            assert(texts(names@).len() == names@.len());
        }
        let who = if names.len() == 0 {
            "Someone".to_owned()
        } else {
            join(&names, ", ")
        };
        let mut title = if before == 0 {
            joined("👑 ", who.as_str())
        } else {
            joined("▼ ", who.as_str())
        };
        title.append(
            if before == 0 {
                " took the crown"
            } else {
                " passed you"
            },
        );
        let mut body = around("You're now #", (rank + 1) as u64, ".");
        body.append(gap.as_str());
        let notice = Notice { title, body: trim(body.as_str()) };
        assert(notice@ =~= fall_notice(rows(previous@), rows(board@), before as int, rank as int));
        Some(notice)
    }
}

/// A completion that was just announced, echoed back so the client can say so locally.
#[derive(Clone, Debug)]
pub struct Announcement {
    pub deck: String,
    pub recipients: usize,
}

/// What an upload changed, as text.
#[verifier::ext_equal]
pub struct FeedbackModel {
    pub headlines: Seq<Seq<char>>,
    pub status: Option<Seq<char>>,
}

/// What an upload changed: headlines worth a longer banner, and the XP status line.
#[derive(Clone, Debug)]
pub struct Feedback {
    pub headlines: Vec<String>,
    pub status: Option<String>,
}

impl Default for Feedback {
    fn default() -> (res: Self)
        ensures
            res.headlines@.len() == 0,
            res.status is None,
    {
        Feedback { headlines: Vec::new(), status: None }
    }
}

pub open spec fn opt_text(o: Option<String>) -> Option<Seq<char>> {
    match o {
        Some(s) => Some(s@),
        None => None,
    }
}

impl View for Feedback {
    type V = FeedbackModel;

    open spec fn view(&self) -> FeedbackModel {
        FeedbackModel { headlines: texts(self.headlines@), status: opt_text(self.status) }
    }
}

/// How an announcement is worded.
pub open spec fn announcement_text(item: Announcement) -> Seq<char> {
    "📣 "@ + item.deck@ + " — told "@ + decimal(item.recipients as nat) + if item.recipients == 1 {
        " friend"@
    } else {
        " friends"@
    }
}

/// How an announcement is worded.
pub fn announcement(item: &Announcement) -> (res: String)
    ensures
        res@ == announcement_text(*item),
{
    let mut s = joined("📣 ", item.deck.as_str());
    s.append(" — told ");
    s.append(number(item.recipients as u64).as_str());
    s.append(
        if item.recipients == 1 {
            " friend"
        } else {
            " friends"
        },
    );
    s
}

/// The level, and how far it has been filled.
pub open spec fn level_text(p: Profile) -> Seq<char> {
    "Lv "@ + decimal(p.level as nat) + "  "@ + decimal(p.xp_into_level as nat) + "/"@ + decimal(p.xp_for_next as nat)
}

/// The level, and how far it has been filled.
pub fn level_status(profile: &Profile) -> (res: String)
    ensures
        res@ == level_text(*profile),
{
    let mut s = around("Lv ", profile.level, "  ");
    s.append(number(profile.xp_into_level).as_str());
    s.append("/");
    s.append(number(profile.xp_for_next).as_str());
    s
}

/// Whether a quest of this wording has been completed.
pub open spec fn quest_done(p: Profile, title: Seq<char>) -> bool {
    exists|i: int| 0 <= i < p.quests@.len() && (#[trigger] p.quests@[i]).done && p.quests@[i].title@ == title
}

/// Whether an achievement of this title has been unlocked.
pub open spec fn has_unlocked(p: Profile, title: Seq<char>) -> bool {
    exists|i: int|
        0 <= i < p.achievements@.len() && (#[trigger] p.achievements@[i]).unlocked is Some
            && p.achievements@[i].title@ == title
}

/// The wordings of the quests that have been completed, in order.
pub fn done_quests(profile: &Profile) -> (res: Vec<String>)
    ensures
        ascending(texts(res@)),
        forall|t: Seq<char>| #[trigger] texts(res@).contains(t) <==> quest_done(*profile, t),
{
    let mut list: Vec<String> = Vec::new();
    let mut i: usize = 0;
    assert(texts(list@) =~= Seq::<Seq<char>>::empty());
    while i < profile.quests.len()
        invariant
            i <= profile.quests@.len(),
            ascending(texts(list@)),
            forall|t: Seq<char>| #[trigger]
                texts(list@).contains(t) <==> exists|k: int|
                    0 <= k < i && (#[trigger] profile.quests@[k]).done && profile.quests@[k].title@ == t,
        decreases profile.quests@.len() - i,
    {
        let ghost before = texts(list@);
        if profile.quests[i].done {
            let title = profile.quests[i].title.clone();
            assert(rows(list@) =~= before);
            insert_ascending(&mut list, title);
            assert(rows(list@) =~= texts(list@));
        }
        assert forall|t: Seq<char>| #[trigger] texts(list@).contains(t) <==> exists|k: int|
            0 <= k < i + 1 && (#[trigger] profile.quests@[k]).done && profile.quests@[k].title@ == t by {
            if texts(list@).contains(t) {
                if before.contains(t) {
                    let k = choose|k: int|
                        0 <= k < i && (#[trigger] profile.quests@[k]).done && profile.quests@[k].title@ == t;
                    assert(profile.quests@[k].done);
                } else {
                    assert(profile.quests@[i as int].done);
                }
            }
            if exists|k: int| 0 <= k < i + 1 && (#[trigger] profile.quests@[k]).done && profile.quests@[k].title@ == t {
                let k = choose|k: int|
                    0 <= k < i + 1 && (#[trigger] profile.quests@[k]).done && profile.quests@[k].title@ == t;
                if k < i {
                    assert(before.contains(t));
                }
            }
        }
        i = i + 1;
    }
    list
}

/// The titles of the achievements that have been unlocked, in order.
pub fn unlocked(profile: &Profile) -> (res: Vec<String>)
    ensures
        ascending(texts(res@)),
        forall|t: Seq<char>| #[trigger] texts(res@).contains(t) <==> has_unlocked(*profile, t),
{
    let mut list: Vec<String> = Vec::new();
    let mut i: usize = 0;
    assert(texts(list@) =~= Seq::<Seq<char>>::empty());
    while i < profile.achievements.len()
        invariant
            i <= profile.achievements@.len(),
            ascending(texts(list@)),
            forall|t: Seq<char>| #[trigger]
                texts(list@).contains(t) <==> exists|k: int|
                    0 <= k < i && (#[trigger] profile.achievements@[k]).unlocked is Some
                        && profile.achievements@[k].title@ == t,
        decreases profile.achievements@.len() - i,
    {
        let ghost before = texts(list@);
        if profile.achievements[i].unlocked.is_some() {
            let title = profile.achievements[i].title.clone();
            assert(rows(list@) =~= before);
            insert_ascending(&mut list, title);
            assert(rows(list@) =~= texts(list@));
        }
        assert forall|t: Seq<char>| #[trigger] texts(list@).contains(t) <==> exists|k: int|
            0 <= k < i + 1 && (#[trigger] profile.achievements@[k]).unlocked is Some && profile.achievements@[k].title@
                == t by {
            if texts(list@).contains(t) {
                if before.contains(t) {
                    let k = choose|k: int|
                        0 <= k < i && (#[trigger] profile.achievements@[k]).unlocked is Some
                            && profile.achievements@[k].title@ == t;
                    assert(profile.achievements@[k].unlocked is Some);
                } else {
                    assert(profile.achievements@[i as int].unlocked is Some);
                }
            }
            if exists|k: int|
                0 <= k < i + 1 && (#[trigger] profile.achievements@[k]).unlocked is Some
                    && profile.achievements@[k].title@ == t {
                let k = choose|k: int|
                    0 <= k < i + 1 && (#[trigger] profile.achievements@[k]).unlocked is Some
                        && profile.achievements@[k].title@ == t;
                if k < i {
                    assert(before.contains(t));
                }
            }
        }
        i = i + 1;
    }
    list
}

/// The texts that pass a test, in order. There is only one way to order them.
pub open spec fn in_order(test: spec_fn(Seq<char>) -> bool) -> Seq<Seq<char>> {
    choose|list: Seq<Seq<char>>| #[trigger]
        ascending(list) && forall|t: Seq<char>| #[trigger] list.contains(t) <==> test(t)
}

pub proof fn lemma_in_order(list: Seq<Seq<char>>, test: spec_fn(Seq<char>) -> bool)
    requires
        ascending(list),
        forall|t: Seq<char>| #[trigger] list.contains(t) <==> test(t),
    ensures
        in_order(test) == list,
{
    let other = in_order(test);
    assert(ascending(other) && forall|t: Seq<char>| #[trigger] other.contains(t) <==> test(t));
    assert forall|t: Seq<char>| other.contains(t) <==> list.contains(t) by {
    }
    law_order_is_unique(other, list);
}

/// The texts of one list that are not in another, each behind a heading.
fn news(now: &Vec<String>, had: &Vec<String>, heading: &str, Ghost(test): Ghost<spec_fn(Seq<char>) -> bool>) -> (res: Vec<
    String,
>)
    requires
        ascending(texts(now@)),
        forall|t: Seq<char>| #[trigger] test(t) <==> texts(now@).contains(t) && !texts(had@).contains(t),
    ensures
        texts(res@) == in_order(test).map_values(|t: Seq<char>| heading@ + t),
{
    let ghost all = texts(now@);
    let ghost headed = |t: Seq<char>| heading@ + t;
    let ghost mut list: Seq<Seq<char>> = Seq::empty();
    let mut res: Vec<String> = Vec::new();
    let mut i: usize = 0;
    assert(texts(res@) =~= list.map_values(headed));
    while i < now.len()
        invariant
            all == texts(now@),
            headed == (|t: Seq<char>| heading@ + t),
            ascending(all),
            i <= now@.len(),
            texts(res@) == list.map_values(headed),
            ascending(list),
            forall|t: Seq<char>| #[trigger]
                list.contains(t) <==> all.take(i as int).contains(t) && !texts(had@).contains(t),
        decreases now@.len() - i,
    {
        let ghost t0 = now@[i as int]@;
        let ghost list0 = list;
        let is_it = |u: &String| -> (b: bool)
            ensures
                b == (u@ == now@[i as int]@),
        {
            same(u.as_str(), now[i].as_str())
        };
        let known = has(had, is_it, Ghost(|u: Seq<char>| u == t0));
        proof {
            assert(rows(had@) =~= texts(had@));
            assert(known == texts(had@).contains(t0)) by {
                let test0 = |u: Seq<char>| u == t0;
                if known {
                    let k = choose|k: int| 0 <= k < rows(had@).len() && test0(#[trigger] rows(had@)[k]);
                    assert(texts(had@)[k] == t0);
                }
                if texts(had@).contains(t0) {
                    let k = choose|k: int| 0 <= k < texts(had@).len() && texts(had@)[k] == t0;
                    assert(test0(rows(had@)[k]));
                }
            }
            assert(all[i as int] == t0);
            assert(all.take(i + 1) =~= all.take(i as int).push(t0));
        }
        if !known {
            let text = joined(heading, now[i].as_str());
            let ghost shown = text@;
            let ghost res0 = res@;
            res.push(text);
            proof {
                assert(texts(res@) =~= texts(res0).push(shown));
                list = list0.push(t0);
                assert(texts(res@) =~= list.map_values(headed));
                assert forall|a: int, b: int| 0 <= a < b < list.len() implies crate::order::precedes(
                    #[trigger] list[a],
                    #[trigger] list[b],
                ) by {
                    if b == list0.len() {
                        assert(list0.contains(list0[a]));
                        assert(all.take(i as int).contains(list0[a]));
                        let k = choose|k: int| 0 <= k < i && all.take(i as int)[k] == list0[a];
                        assert(crate::order::precedes(all[k], all[i as int]));
                    } else {
                        assert(crate::order::precedes(list0[a], list0[b]));
                    }
                }
            }
        }
        proof {
            let seen = all.take(i as int);
            let next = all.take(i + 1);
            assert forall|t: Seq<char>| #[trigger] list.contains(t) <==> next.contains(t) && !texts(had@).contains(t) by {
                if next.contains(t) {
                    let k = choose|k: int| 0 <= k < next.len() && next[k] == t;
                    if k < i {
                        assert(seen[k] == t);
                        assert(seen.contains(t));
                    }
                }
                if seen.contains(t) {
                    let k = choose|k: int| 0 <= k < seen.len() && seen[k] == t;
                    assert(next[k] == t);
                }
                if !known {
                    assert(list[list0.len() as int] == t0);
                    assert(next[i as int] == t0);
                    if list0.contains(t) {
                        let k = choose|k: int| 0 <= k < list0.len() && list0[k] == t;
                        assert(list[k] == t);
                    }
                    if list.contains(t) && t != t0 {
                        let k = choose|k: int| 0 <= k < list.len() && list[k] == t;
                        assert(list0[k] == t);
                        assert(list0.contains(t));
                    }
                }
                assert(list0.contains(t) <==> all.take(i as int).contains(t) && !texts(had@).contains(t));
            }
        }
        i = i + 1;
    }
    proof {
        assert(all.take(i as int) =~= all);
        assert forall|t: Seq<char>| #[trigger] list.contains(t) <==> test(t) by {
        }
        lemma_in_order(list, test);
    }
    res
}

/// The headlines of what was gained: the level, achievements and quests in the
/// order of their titles, and the streak.
pub open spec fn gains(before: Profile, after: Profile) -> Seq<Seq<char>> {
    let achievements = in_order(|t: Seq<char>| has_unlocked(after, t) && !has_unlocked(before, t));
    let quests = in_order(|t: Seq<char>| quest_done(after, t) && !quest_done(before, t));
    (if after.level > before.level {
        seq!["Level "@ + decimal(after.level as nat) + "!"@]
    } else {
        Seq::empty()
    }) + achievements.map_values(|t: Seq<char>| "Achievement: "@ + t) + quests.map_values(
        |t: Seq<char>| "Quest complete: "@ + t,
    ) + (if after.streak > before.streak {
        seq![decimal(after.streak as nat) + " day streak"@]
    } else {
        Seq::empty()
    })
}

/// The status line.
pub open spec fn status_text(before: Profile, after: Profile) -> Option<Seq<char>> {
    let combo = after.today.current_combo as nat;
    if after.xp_total == before.xp_total {
        None
    } else if after.xp_total < before.xp_total {
        Some(
            "−"@ + decimal((before.xp_total - after.xp_total) as nat) + " XP  ·  combo "@ + decimal(combo) + "  ·  "@
                + level_text(after),
        )
    } else {
        Some(
            "+"@ + decimal((after.xp_total - before.xp_total) as nat) + " XP"@ + (if combo >= 5 {
                "  ·  combo "@ + decimal(combo)
            } else {
                Seq::empty()
            }) + "  ·  "@ + level_text(after),
        )
    }
}

/// What is said about a change of a profile. Without a profile to compare with,
/// only the announcements are.
pub open spec fn feedback_of(before: Option<Profile>, after: Profile, announced: Seq<Announcement>) -> FeedbackModel {
    let told = announced.map_values(|item: Announcement| announcement_text(item));
    match before {
        None => FeedbackModel { headlines: told, status: None },
        Some(b) => FeedbackModel {
            headlines: if after.xp_total > b.xp_total {
                told + gains(b, after)
            } else {
                told
            },
            status: status_text(b, after),
        },
    }
}

fn extend(list: &mut Vec<String>, more: Vec<String>)
    ensures
        texts(final(list)@) == texts(old(list)@) + texts(more@),
{
    let ghost before = list@;
    let ghost added = more@;
    let mut more = more;
    list.append(&mut more);
    assert(texts(list@) =~= texts(before) + texts(added));
}

fn add(list: &mut Vec<String>, text: String)
    ensures
        texts(final(list)@) == texts(old(list)@) + seq![text@],
{
    let ghost before = list@;
    let ghost shown = text@;
    list.push(text);
    assert(texts(list@) =~= texts(before) + seq![shown]);
}

fn add_gains(before: &Profile, after: &Profile, headlines: &mut Vec<String>)
    ensures
        texts(final(headlines)@) == texts(old(headlines)@) + gains(*before, *after),
{
    let ghost told = texts(headlines@);
    if after.level > before.level {
        self::add(headlines, around("Level ", after.level, "!"));
    }
    let ghost a = texts(headlines@);
    let ghost new_titles = |t: Seq<char>| has_unlocked(*after, t) && !has_unlocked(*before, t);
    let had = unlocked(before);
    let now = unlocked(after);
    extend(headlines, news(&now, &had, "Achievement: ", Ghost(new_titles)));
    let ghost new_quests = |t: Seq<char>| quest_done(*after, t) && !quest_done(*before, t);
    let had_quests = done_quests(before);
    let now_quests = done_quests(after);
    extend(headlines, news(&now_quests, &had_quests, "Quest complete: ", Ghost(new_quests)));
    if after.streak > before.streak {
        self::add(headlines, joined(number(after.streak).as_str(), " day streak"));
    }
    assert(texts(headlines@) =~= told + gains(*before, *after));
}

/// Compares the profile before and after an upload or preview. Without a baseline only
/// the deck announcements are reported.
pub fn feedback(before: Option<&Profile>, after: &Profile, announced: &[Announcement]) -> (res: Feedback)
    ensures
        res@ == feedback_of(
            match before {
                Some(b) => Some(*b),
                None => None,
            },
            *after,
            announced@,
        ),
{
    let ghost told = announced@.map_values(|item: Announcement| announcement_text(item));
    let mut headlines: Vec<String> = Vec::new();
    let mut i: usize = 0;
    assert(texts(headlines@) =~= told.take(0));
    while i < announced.len()
        invariant
            told == announced@.map_values(|item: Announcement| announcement_text(item)),
            i <= announced@.len(),
            texts(headlines@) == told.take(i as int),
        decreases announced@.len() - i,
    {
        self::add(&mut headlines, announcement(&announced[i]));
        i = i + 1;
        assert(texts(headlines@) =~= told.take(i as int));
    }
    assert(told.take(i as int) =~= told);
    match before {
        None => Feedback { headlines, status: None },
        Some(before) => {
            let combo: u64 = after.today.current_combo;
            let status = if after.xp_total == before.xp_total {
                None
            } else if after.xp_total < before.xp_total {
                let mut s = around("−", before.xp_total - after.xp_total, " XP  ·  combo ");
                s.append(number(combo).as_str());
                s.append("  ·  ");
                s.append(level_status(after).as_str());
                Some(s)
            } else {
                add_gains(before, after, &mut headlines);
                let mut s = around("+", after.xp_total - before.xp_total, " XP");
                let ghost start = s@;
                if combo >= 5 {
                    s.append(joined("  ·  combo ", number(combo).as_str()).as_str());
                } else {
                    assert(s@ =~= start + Seq::<char>::empty());
                }
                s.append("  ·  ");
                s.append(level_status(after).as_str());
                Some(s)
            };
            Feedback { headlines, status }
        },
    }
}

/// Where XP was gained, the status line begins with the gain: what has to be
/// added to the XP before to get the XP after.
pub proof fn law_the_status_line_tells_the_gain(before: Profile, after: Profile, announced: Seq<Announcement>, gain: nat)
    requires
        before.xp_total + gain == after.xp_total,
    ensures
        ({
            let status = feedback_of(Some(before), after, announced).status;
            let head = "+"@ + decimal(gain) + " XP"@;
            &&& gain == 0 <==> status is None
            &&& gain > 0 ==> status->0.len() >= head.len() && status->0.take(head.len() as int) == head
            &&& gain > 0 && after.today.current_combo < 5 ==> status->0 == head + "  ·  "@ + "Lv "@ + decimal(after.level as nat)
                + "  "@ + decimal(after.xp_into_level as nat) + "/"@ + decimal(after.xp_for_next as nat)
            &&& gain > 0 && after.today.current_combo >= 5 ==> status->0 == head + "  ·  combo "@ + decimal(
                after.today.current_combo as nat,
            ) + "  ·  "@ + "Lv "@ + decimal(after.level as nat) + "  "@ + decimal(after.xp_into_level as nat) + "/"@ + decimal(
                after.xp_for_next as nat,
            )
        }),
{
    if gain > 0 {
        let status = feedback_of(Some(before), after, announced).status->0;
        let head = "+"@ + decimal(gain) + " XP"@;
        let combo = after.today.current_combo as nat;
        assert((after.xp_total - before.xp_total) as nat == gain);
        if combo >= 5 {
            assert(status =~= head + "  ·  combo "@ + decimal(combo) + "  ·  "@ + "Lv "@ + decimal(after.level as nat) + "  "@
                + decimal(after.xp_into_level as nat) + "/"@ + decimal(after.xp_for_next as nat));
        } else {
            assert(status =~= head + "  ·  "@ + "Lv "@ + decimal(after.level as nat) + "  "@ + decimal(
                after.xp_into_level as nat,
            ) + "/"@ + decimal(after.xp_for_next as nat));
        }
        assert(status.take(head.len() as int) =~= head);
    }
}

/// Where XP was lost, as by a review that was undone, the status line begins
/// with the loss: what has to be added to the XP after to get the XP before.
pub proof fn law_the_status_line_tells_the_loss(before: Profile, after: Profile, announced: Seq<Announcement>, loss: nat)
    requires
        after.xp_total + loss == before.xp_total,
        loss > 0,
    ensures
        feedback_of(Some(before), after, announced).status == Some(
            "−"@ + decimal(loss) + " XP  ·  combo "@ + decimal(after.today.current_combo as nat) + "  ·  "@ + "Lv "@ + decimal(
                after.level as nat,
            ) + "  "@ + decimal(after.xp_into_level as nat) + "/"@ + decimal(after.xp_for_next as nat),
        ),
        feedback_of(Some(before), after, announced).headlines.len() == announced.len(),
{
    let status = feedback_of(Some(before), after, announced).status->0;
    assert((before.xp_total - after.xp_total) as nat == loss);
    assert(status =~= "−"@ + decimal(loss) + " XP  ·  combo "@ + decimal(after.today.current_combo as nat) + "  ·  "@ + "Lv "@
        + decimal(after.level as nat) + "  "@ + decimal(after.xp_into_level as nat) + "/"@ + decimal(after.xp_for_next as nat));
}

/// Two changes by the same XP that end at the same level and with the same
/// combo have the same status line, whatever the XP before.
pub proof fn law_the_status_line_depends_on_the_change(a: Profile, b: Profile, c: Profile, d: Profile, announced: Seq<Announcement>)
    requires
        b.xp_total - a.xp_total == d.xp_total - c.xp_total,
        b.level == d.level,
        b.xp_into_level == d.xp_into_level,
        b.xp_for_next == d.xp_for_next,
        b.today.current_combo == d.today.current_combo,
    ensures
        feedback_of(Some(a), b, announced).status == feedback_of(Some(c), d, announced).status,
{
}

proof fn lemma_quest_titles(p: Profile) -> (all: Seq<Seq<char>>)
    ensures
        forall|t: Seq<char>| #[trigger] quest_done(p, t) ==> all.contains(t),
{
    let all = p.quests@.map_values(|q: crate::game::QuestView| q.title@);
    assert forall|t: Seq<char>| #[trigger] quest_done(p, t) implies all.contains(t) by {
        let i = choose|i: int| 0 <= i < p.quests@.len() && (#[trigger] p.quests@[i]).done && p.quests@[i].title@ == t;
        assert(all[i] == t);
    }
    all
}

proof fn lemma_unlocked_titles(p: Profile) -> (all: Seq<Seq<char>>)
    ensures
        forall|t: Seq<char>| #[trigger] has_unlocked(p, t) ==> all.contains(t),
{
    let all = p.achievements@.map_values(|a: crate::game::AchievementView| a.title@);
    assert forall|t: Seq<char>| #[trigger] has_unlocked(p, t) implies all.contains(t) by {
        let i = choose|i: int|
            0 <= i < p.achievements@.len() && (#[trigger] p.achievements@[i]).unlocked is Some && p.achievements@[i].title@
                == t;
        assert(all[i] == t);
    }
    all
}

/// A test that only texts of a list pass can be met in order.
proof fn lemma_ordered(all: Seq<Seq<char>>, test: spec_fn(Seq<char>) -> bool)
    requires
        forall|t: Seq<char>| #[trigger] test(t) ==> all.contains(t),
    ensures
        ascending(in_order(test)),
        forall|t: Seq<char>| #[trigger] in_order(test).contains(t) <==> test(t),
{
    let some = kept(all, test);
    crate::table::lemma_kept(all, test);
    let list = crate::order::law_texts_can_be_ordered(some);
    assert forall|t: Seq<char>| #[trigger] list.contains(t) <==> test(t) by {
        assert(some.contains(t) <==> all.contains(t) && test(t));
    }
    lemma_in_order(list, test);
}

/// Where XP was gained, the headlines say what is new: the level, each
/// achievement that is unlocked and was not, each quest that is done and was
/// not, and the streak. Where nothing was gained they say only what was
/// announced.
pub proof fn law_headlines_tell_what_is_new(before: Profile, after: Profile, announced: Seq<Announcement>, title: Seq<char>)
    requires
        before.xp_total < after.xp_total,
    ensures
        ({
            let lines = feedback_of(Some(before), after, announced).headlines;
            &&& before.level < after.level ==> lines.contains("Level "@ + decimal(after.level as nat) + "!"@)
            &&& before.streak < after.streak ==> lines.contains(decimal(after.streak as nat) + " day streak"@)
            &&& has_unlocked(after, title) && !has_unlocked(before, title) ==> lines.contains("Achievement: "@ + title)
            &&& quest_done(after, title) && !quest_done(before, title) ==> lines.contains("Quest complete: "@ + title)
        }),
{
    let lines = feedback_of(Some(before), after, announced).headlines;
    let told = announced.map_values(|item: Announcement| announcement_text(item));
    let new_titles = |t: Seq<char>| has_unlocked(after, t) && !has_unlocked(before, t);
    let new_quests = |t: Seq<char>| quest_done(after, t) && !quest_done(before, t);
    let titles = lemma_unlocked_titles(after);
    let wordings = lemma_quest_titles(after);
    assert forall|t: Seq<char>| #[trigger] new_titles(t) implies titles.contains(t) by {
        assert(has_unlocked(after, t));
    }
    assert forall|t: Seq<char>| #[trigger] new_quests(t) implies wordings.contains(t) by {
        assert(quest_done(after, t));
    }
    lemma_ordered(titles, new_titles);
    lemma_ordered(wordings, new_quests);
    let one = if after.level > before.level {
        seq!["Level "@ + decimal(after.level as nat) + "!"@]
    } else {
        Seq::empty()
    };
    let two = in_order(new_titles).map_values(|t: Seq<char>| "Achievement: "@ + t);
    let three = in_order(new_quests).map_values(|t: Seq<char>| "Quest complete: "@ + t);
    let n = told.len() as int;
    if before.level < after.level {
        assert(lines[n] == "Level "@ + decimal(after.level as nat) + "!"@);
    }
    if before.streak < after.streak {
        assert(lines[lines.len() - 1] == decimal(after.streak as nat) + " day streak"@);
    }
    if new_titles(title) {
        assert(in_order(new_titles).contains(title));
        let k = choose|k: int| 0 <= k < in_order(new_titles).len() && in_order(new_titles)[k] == title;
        assert(two[k] == "Achievement: "@ + title);
        assert(lines[n + one.len() + k] == two[k]);
    }
    if new_quests(title) {
        assert(in_order(new_quests).contains(title));
        let k = choose|k: int| 0 <= k < in_order(new_quests).len() && in_order(new_quests)[k] == title;
        assert(three[k] == "Quest complete: "@ + title);
        assert(lines[n + one.len() + two.len() + k] == three[k]);
    }
}

/// Headlines begin with the announcements, one for each, and without a gain,
/// or a profile to compare with, there are no others.
pub proof fn law_headlines_begin_with_announcements(before: Option<Profile>, after: Profile, announced: Seq<Announcement>, i: int)
    requires
        0 <= i < announced.len(),
    ensures
        ({
            let lines = feedback_of(before, after, announced).headlines;
            let item = announced[i];
            &&& lines.len() >= announced.len()
            &&& item.recipients == 1 ==> lines[i] == "📣 "@ + item.deck@ + " — told "@ + decimal(1) + " friend"@
            &&& item.recipients != 1 ==> lines[i] == "📣 "@ + item.deck@ + " — told "@ + decimal(item.recipients as nat)
                + " friends"@
            &&& before is None || after.xp_total <= before->0.xp_total ==> lines.len() == announced.len()
            &&& before is None ==> feedback_of(before, after, announced).status is None
        }),
{
}

/// The hours that a warning names are the hours that are left, begun ones
/// counted: an hour less would be over before the day ends.
pub proof fn law_a_warning_counts_begun_hours(end: int, now: int)
    ensures
        end > now ==> 3_600_000 * (hours_until(end, now) - 1) < end - now <= 3_600_000 * hours_until(end, now),
        end <= now ==> hours_until(end, now) == 1,
{
}

/// Whether a character is no comma.
pub open spec fn no_comma() -> spec_fn(char) -> bool {
    |c: char| c != ','
}

proof fn lemma_commas(digits: Seq<char>, after: nat)
    requires
        forall|i: int| 0 <= i < digits.len() ==> (#[trigger] digits[i]) != ',',
    ensures
        kept(with_commas(digits, after), no_comma()) == digits,
    decreases digits.len(),
{
    let test = no_comma();
    if digits.len() > 0 {
        let init = digits.drop_last();
        let last = digits.last();
        let before = with_commas(init, after + 1);
        assert forall|i: int| 0 <= i < init.len() implies (#[trigger] init[i]) != ',' by {
            assert(digits[i] != ',');
        }
        lemma_commas(init, after + 1);
        assert(digits[digits.len() - 1] == last);
        assert(before.push(',').drop_last() =~= before);
        assert(before.push(',').push(last).drop_last() =~= before.push(','));
        assert(before.push(last).drop_last() =~= before);
        assert(kept(before.push(','), test) == kept(before, test));
        assert(kept(before.push(',').push(last), test) == kept(before.push(','), test).push(last));
        assert(kept(before.push(last), test) == kept(before, test).push(last));
        assert(init.push(last) =~= digits);
    } else {
        assert(with_commas(digits, after) =~= Seq::<char>::empty());
        assert(digits =~= Seq::<char>::empty());
    }
}

/// Setting thousands apart changes no digit: without the commas the digits are
/// what they were.
pub proof fn law_commas_keep_the_digits(digits: Seq<char>)
    requires
        forall|i: int| 0 <= i < digits.len() ==> (#[trigger] digits[i]) != ',',
    ensures
        kept(with_commas(digits, 0), no_comma()) == digits,
{
    lemma_commas(digits, 0);
}

/// Nothing is said of a board on which a player stands where they stood, has
/// earned nothing, or does not stand.
pub proof fn law_only_moves_are_told(previous: Seq<Seq<char>>, board: Seq<PlaceModel>, me: Seq<char>, rank: int, before: int)
    requires
        rank_of(board, me) == Some(rank),
        rank_in(previous, me) == Some(before),
    ensures
        rank_notice(previous, board, me) is Some <==> rank != before && board[rank].week_xp > 0,
        rank == 0 && before > 0 && board[rank].week_xp > 0 ==> rank_notice(previous, board, me)->0.title
            == "👑 You took the crown"@,
        0 < rank < before && board[rank].week_xp > 0 ==> rank_notice(previous, board, me)->0.title == "▲ You're now #"@ + decimal(
            (rank + 1) as nat,
        ),
{
}

/// A player stands on a board where the first row of their name is.
pub proof fn law_a_rank_is_the_first_row(board: Seq<PlaceModel>, previous: Seq<Seq<char>>, me: Seq<char>)
    ensures
        match rank_of(board, me) {
            Some(i) => 0 <= i < board.len() && board[i].user == me && forall|k: int|
                0 <= k < i ==> (#[trigger] board[k]).user != me,
            None => forall|k: int| 0 <= k < board.len() ==> (#[trigger] board[k]).user != me,
        },
        match rank_in(previous, me) {
            Some(i) => 0 <= i < previous.len() && previous[i] == me && forall|k: int|
                0 <= k < i ==> (#[trigger] previous[k]) != me,
            None => forall|k: int| 0 <= k < previous.len() ==> (#[trigger] previous[k]) != me,
        },
{
    let on_board = |p: PlaceModel| p.user == me;
    let among = is_text(me);
    crate::table::lemma_first(board, on_board);
    crate::table::lemma_first(previous, among);
    assert(rank_in(previous, me) == first(previous, among));
    if let Some(i) = first(previous, among) {
        assert(among(previous[i]));
        assert forall|k: int| 0 <= k < i implies (#[trigger] previous[k]) != me by {
            assert(!among(previous[k]));
        }
    } else {
        assert forall|k: int| 0 <= k < previous.len() implies (#[trigger] previous[k]) != me by {
            assert(!among(previous[k]));
        }
    }
}

/// Who was passed stood ahead and stands behind now, and who passed stood
/// behind and stands ahead now.
pub proof fn law_passing_changes_sides(
    previous: Seq<Seq<char>>,
    board: Seq<PlaceModel>,
    before: int,
    rank: int,
    other: Seq<char>,
)
    requires
        0 <= before < previous.len(),
        0 <= rank < board.len(),
    ensures
        passed_by(previous, board, before, rank).contains(other) <==> previous.take(before).contains(other) && (rank_of(
            board,
            other,
        ) matches Some(at) && at > rank),
        overtakers(previous, board, before, rank).contains(other) <==> board.take(rank).map_values(
            |p: PlaceModel| p.user,
        ).contains(other) && (rank_in(previous, other) matches Some(at) && at > before),
{
    crate::table::lemma_kept(previous.take(before), |u: Seq<char>| rank_of(board, u) matches Some(at) && at > rank);
    crate::table::lemma_kept(
        board.take(rank).map_values(|p: PlaceModel| p.user),
        |u: Seq<char>| rank_in(previous, u) matches Some(at) && at > before,
    );
}

/// The gap to the next player ahead is what is missing to draw level.
pub proof fn law_the_gap_is_what_is_missing(board: Seq<PlaceModel>, rank: int, gap: nat)
    requires
        0 < rank < board.len(),
        board[rank].week_xp + gap == board[rank - 1].week_xp,
    ensures
        gap_text(board, rank) == " "@ + with_commas(decimal(gap), 0) + " XP behind "@ + board[rank - 1].display + "."@,
        gap_text(board, 0).len() == 0,
{
}

} // verus!
