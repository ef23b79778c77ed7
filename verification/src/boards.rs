//! The leaderboard and the records of all players.

use vstd::prelude::*;
use crate::game::Profile;
use crate::ranking::{in_rank, is_order, law_ranked_lists_are_in_order, place, ranked};
use crate::records::Periods;
use crate::table::rows;
use crate::text::same;

verus! {

/// How many people a record names: the holder and whoever came closest.
pub const PODIUM: usize = 3;

/// A place on the leaderboard, with its texts.
pub struct StandingModel {
    pub user: Seq<char>,
    pub display: Seq<char>,
    pub level: u64,
    pub xp_total: u64,
    pub week_xp: u64,
    pub xp: u64,
    pub period: Seq<char>,
    pub periods: Periods,
    pub streak: u64,
    pub today_reviews: u64,
}

/// A place on the leaderboard.
#[derive(Clone, Debug)]
pub struct Standing {
    pub user: String,
    pub display: String,
    pub level: u64,
    pub xp_total: u64,
    pub week_xp: u64,
    pub xp: u64,
    pub period: String,
    pub periods: Periods,
    pub streak: u64,
    pub today_reviews: u64,
}

impl View for Standing {
    type V = StandingModel;

    open spec fn view(&self) -> StandingModel {
        StandingModel {
            user: self.user@,
            display: self.display@,
            level: self.level,
            xp_total: self.xp_total,
            week_xp: self.week_xp,
            xp: self.xp,
            period: self.period@,
            periods: self.periods,
            streak: self.streak,
            today_reviews: self.today_reviews,
        }
    }
}

/// Whether a text names a period of the leaderboard.
pub open spec fn names_period(name: Seq<char>) -> bool {
    name == "hour"@ || name == "day"@ || name == "week"@ || name == "month"@ || name == "year"@ || name == "all"@
}

/// Whether a text names a period of the leaderboard.
pub fn is_period(name: &str) -> (res: bool)
    ensures
        res == names_period(name@),
{
    same(name, "hour") || same(name, "day") || same(name, "week") || same(name, "month") || same(name, "year") || same(
        name,
        "all",
    )
}

/// The period that is asked for, or the week.
pub open spec fn period_asked(asked: Option<Seq<char>>) -> Seq<char> {
    match asked {
        Some(name) => if names_period(name) {
            name
        } else {
            "week"@
        },
        None => "week"@,
    }
}

/// The place of a player, before it is ranked.
pub open spec fn standing_of(p: Profile, period: Seq<char>) -> StandingModel {
    StandingModel {
        user: p.user@,
        display: p.display@,
        level: p.level,
        xp_total: p.xp_total,
        week_xp: p.week_xp,
        xp: p.periods.over(period),
        period,
        periods: p.periods,
        streak: p.streak,
        today_reviews: p.today.reviews,
    }
}

/// The places of some players, before they are ranked.
pub open spec fn standings_of(profiles: Seq<Profile>, period: Seq<char>) -> Seq<StandingModel> {
    profiles.map_values(|p: Profile| standing_of(p, period))
}

/// Who stands before whom: by the XP of the period, and then by all XP.
pub open spec fn outranks(a: StandingModel, b: StandingModel) -> bool {
    a.xp > b.xp || (a.xp == b.xp && a.xp_total > b.xp_total)
}

/// The order of the leaderboard.
pub open spec fn board_order() -> spec_fn(StandingModel, StandingModel) -> bool {
    |a: StandingModel, b: StandingModel| outranks(a, b)
}

/// The leaderboard of a period. Players who are level keep their order.
pub fn leaderboard(profiles: &[Profile], period: Option<&str>) -> (res: Vec<Standing>)
    ensures
        rows(res@) == ranked(
            standings_of(
                profiles@,
                period_asked(match period {
                    Some(name) => Some(name@),
                    None => None,
                }),
            ),
            board_order(),
        ),
{
    let chosen = match period {
        Some(name) => if is_period(name) {
            name
        } else {
            "week"
        },
        None => "week",
    };
    let ghost all = standings_of(profiles@, chosen@);
    let mut list: Vec<Standing> = Vec::new();
    let mut i: usize = 0;
    assert(all.take(0) =~= Seq::<StandingModel>::empty());
    assert(rows(list@) =~= Seq::<StandingModel>::empty());
    while i < profiles.len()
        invariant
            all == standings_of(profiles@, chosen@),
            i <= profiles@.len(),
            rows(list@) == ranked(all.take(i as int), board_order()),
        decreases profiles@.len() - i,
    {
        let p = &profiles[i];
        let standing = Standing {
            user: p.user.clone(),
            display: p.display.clone(),
            level: p.level,
            xp_total: p.xp_total,
            week_xp: p.week_xp,
            xp: p.periods.get(chosen),
            period: chosen.to_owned(),
            periods: p.periods,
            streak: p.streak,
            today_reviews: p.today.reviews,
        };
        proof {
            assert(all.take(i + 1).drop_last() =~= all.take(i as int));
            assert(all.take(i + 1).last() == standing@);
        }
        let earlier = |a: &Standing, b: &Standing| -> (r: bool)
            ensures
                r == outranks(a@, b@),
        {
            a.xp > b.xp || (a.xp == b.xp && a.xp_total > b.xp_total)
        };
        place(&mut list, standing, earlier, Ghost(board_order()));
        i = i + 1;
    }
    assert(all.take(i as int) =~= all);
    list
}

/// The leaderboard names every player once, and no one stands before someone
/// with more XP in the period.
pub proof fn law_the_leaderboard_is_in_order(profiles: Seq<Profile>, period: Seq<char>)
    ensures
        in_rank(ranked(standings_of(profiles, period), board_order()), board_order()),
        ranked(standings_of(profiles, period), board_order()).len() == profiles.len(),
        forall|i: int|
            0 <= i < profiles.len() ==> ranked(standings_of(profiles, period), board_order()).contains(
                standing_of(#[trigger] profiles[i], period),
            ),
{
    let all = standings_of(profiles, period);
    assert(is_order(board_order()));
    law_ranked_lists_are_in_order(all, board_order());
    assert forall|i: int| 0 <= i < profiles.len() implies ranked(all, board_order()).contains(
        standing_of(#[trigger] profiles[i], period),
    ) by {
        assert(all[i] == standing_of(profiles[i], period));
        assert(all.contains(all[i]));
    }
}

/// Who holds a record, with texts.
pub struct HolderModel {
    pub user: Seq<char>,
    pub display: Seq<char>,
    pub value: u64,
    pub detail: u64,
    pub at: i64,
}

/// Who holds a record, or came close.
#[derive(Clone, Debug)]
pub struct RecordHolder {
    pub user: String,
    pub display: String,
    pub value: u64,
    pub detail: u64,
    pub at: i64,
}

impl View for RecordHolder {
    type V = HolderModel;

    open spec fn view(&self) -> HolderModel {
        HolderModel {
            user: self.user@,
            display: self.display@,
            value: self.value,
            detail: self.detail,
            at: self.at,
        }
    }
}

/// A record of all players.
#[derive(Clone, Debug)]
pub struct RecordBoard {
    pub window: String,
    pub unit: &'static str,
    pub holders: Vec<RecordHolder>,
}

/// What a player has managed: over a window, as a streak, or in days of study.
pub open spec fn managed(p: Profile, window: Seq<char>) -> (u64, u64, i64) {
    if window == "streak"@ {
        (p.lifetime.best_streak, 0, p.lifetime.best_streak_at)
    } else if window == "days"@ {
        (p.lifetime.days_active, 0, p.lifetime.first_day_at)
    } else {
        let record = p.records.over(window);
        (record.xp, record.reviews, record.at)
    }
}

/// What a record is counted in.
pub open spec fn unit_of(window: Seq<char>) -> Seq<char> {
    if window == "streak"@ || window == "days"@ {
        "days"@
    } else {
        "xp"@
    }
}

fn manages(p: &Profile, window: &str) -> (res: (u64, u64, i64))
    ensures
        res == managed(*p, window@),
{
    if same(window, "streak") {
        (p.lifetime.best_streak, 0, p.lifetime.best_streak_at)
    } else if same(window, "days") {
        (p.lifetime.days_active, 0, p.lifetime.first_day_at)
    } else {
        let record = p.records.get(window);
        (record.xp, record.reviews, record.at)
    }
}

/// The players who have managed anything, before they are ranked.
pub open spec fn contenders(profiles: Seq<Profile>, window: Seq<char>) -> Seq<HolderModel>
    decreases profiles.len(),
{
    if profiles.len() == 0 {
        Seq::empty()
    } else {
        let before = contenders(profiles.drop_last(), window);
        let p = profiles.last();
        let (value, detail, at) = managed(p, window);
        if value > 0 {
            before.push(HolderModel { user: p.user@, display: p.display@, value, detail, at })
        } else {
            before
        }
    }
}

/// Who comes before whom: by the value, and then by the detail.
pub open spec fn beats(a: HolderModel, b: HolderModel) -> bool {
    a.value > b.value || (a.value == b.value && a.detail > b.detail)
}

/// The order of a record.
pub open spec fn record_order() -> spec_fn(HolderModel, HolderModel) -> bool {
    |a: HolderModel, b: HolderModel| beats(a, b)
}

/// The first few of a list.
pub open spec fn at_most<V>(list: Seq<V>, n: int) -> Seq<V> {
    if list.len() <= n {
        list
    } else {
        list.take(n)
    }
}

/// Whether a board shows a record of some players.
pub open spec fn shows_record(board: RecordBoard, profiles: Seq<Profile>, window: Seq<char>) -> bool {
    &&& board.window@ == window
    &&& board.unit@ == unit_of(window)
    &&& rows(board.holders@) == at_most(ranked(contenders(profiles, window), record_order()), PODIUM as int)
}

/// The record of all players over a window: the holder and whoever came
/// closest.
pub fn podium(window: &str, profiles: &[Profile]) -> (res: RecordBoard)
    ensures
        shows_record(res, profiles@, window@),
{
    let mut list: Vec<RecordHolder> = Vec::new();
    let mut i: usize = 0;
    assert(profiles@.take(0) =~= Seq::<Profile>::empty());
    assert(rows(list@) =~= Seq::<HolderModel>::empty());
    while i < profiles.len()
        invariant
            i <= profiles@.len(),
            rows(list@) == ranked(contenders(profiles@.take(i as int), window@), record_order()),
        decreases profiles@.len() - i,
    {
        let p = &profiles[i];
        let (value, detail, at): (u64, u64, i64) = manages(p, window);
        let ghost before = contenders(profiles@.take(i as int), window@);
        proof {
            assert(profiles@.take(i + 1).drop_last() =~= profiles@.take(i as int));
            assert(profiles@.take(i + 1).last() == *p);
        }
        if value > 0 {
            let holder = RecordHolder { user: p.user.clone(), display: p.display.clone(), value, detail, at };
            assert(before.push(holder@).drop_last() =~= before);
            let earlier = |a: &RecordHolder, b: &RecordHolder| -> (r: bool)
                ensures
                    r == beats(a@, b@),
            {
                a.value > b.value || (a.value == b.value && a.detail > b.detail)
            };
            place(&mut list, holder, earlier, Ghost(record_order()));
        }
        i = i + 1;
    }
    assert(profiles@.take(i as int) =~= profiles@);
    let ghost all = rows(list@);
    if list.len() > PODIUM {
        list.truncate(PODIUM);
        assert(rows(list@) =~= all.take(PODIUM as int));
    }
    let unit: &'static str = if same(window, "streak") || same(window, "days") {
        "days"
    } else {
        "xp"
    };
    RecordBoard { window: window.to_owned(), unit, holders: list }
}

/// The windows of the records, in order.
pub open spec fn record_window(i: int) -> Seq<char> {
    if i == 0 {
        "hour"@
    } else if i == 1 {
        "day"@
    } else if i == 2 {
        "week"@
    } else if i == 3 {
        "month"@
    } else if i == 4 {
        "year"@
    } else if i == 5 {
        "streak"@
    } else {
        "days"@
    }
}

/// The best hour, day, week, month and year anyone here has ever had, plus the
/// longest streak and the most days studied. Each names whoever came closest,
/// so a near miss is visible rather than hidden.
pub fn records(profiles: &[Profile]) -> (res: Vec<RecordBoard>)
    ensures
        res@.len() == 7,
        forall|i: int| 0 <= i < 7 ==> shows_record(#[trigger] res@[i], profiles@, record_window(i)),
        res@[0].window@ == "hour"@,
        res@[1].window@ == "day"@,
        res@[2].window@ == "week"@,
        res@[3].window@ == "month"@,
        res@[4].window@ == "year"@,
        res@[5].window@ == "streak"@,
        res@[6].window@ == "days"@,
{
    let mut board: Vec<RecordBoard> = Vec::new();
    board.push(podium("hour", profiles));
    board.push(podium("day", profiles));
    board.push(podium("week", profiles));
    board.push(podium("month", profiles));
    board.push(podium("year", profiles));
    board.push(podium("streak", profiles));
    board.push(podium("days", profiles));
    board
}

/// The next player ahead among some: the first of those with the least XP in
/// the week above one's own.
pub open spec fn next_ahead(ranking: Seq<Profile>, week_xp: u64) -> Option<int>
    decreases ranking.len(),
{
    if ranking.len() == 0 {
        None
    } else {
        let last = ranking.last().week_xp;
        match next_ahead(ranking.drop_last(), week_xp) {
            Some(b) => if week_xp < last && last < ranking[b].week_xp {
                Some(ranking.len() - 1)
            } else {
                Some(b)
            },
            None => if week_xp < last {
                Some(ranking.len() - 1)
            } else {
                None
            },
        }
    }
}

/// The name and the XP in the week of the next player ahead.
pub open spec fn ahead_in(ranking: Seq<Profile>, week_xp: u64) -> Option<(Seq<char>, nat)> {
    match next_ahead(ranking, week_xp) {
        Some(i) => Some((ranking[i].display@, ranking[i].week_xp as nat)),
        None => None,
    }
}

/// The next player ahead has more XP in the week, and of those who do the
/// least; there is none only where no one has more.
pub proof fn law_the_next_ahead_is_the_nearest(ranking: Seq<Profile>, week_xp: u64)
    ensures
        match next_ahead(ranking, week_xp) {
            Some(i) => 0 <= i < ranking.len() && ranking[i].week_xp > week_xp && forall|k: int|
                0 <= k < ranking.len() && (#[trigger] ranking[k]).week_xp > week_xp ==> ranking[k].week_xp
                    >= ranking[i].week_xp && (k < i ==> ranking[k].week_xp > ranking[i].week_xp),
            None => forall|k: int| 0 <= k < ranking.len() ==> (#[trigger] ranking[k]).week_xp <= week_xp,
        },
    decreases ranking.len(),
{
    if ranking.len() > 0 {
        let init = ranking.drop_last();
        law_the_next_ahead_is_the_nearest(init, week_xp);
        assert forall|k: int| 0 <= k < init.len() implies #[trigger] ranking[k] == init[k] by {
        }
    }
}

/// Who is just out of reach: the name and the XP in the week of the next
/// player ahead.
pub fn ahead_of<'a>(ranking: &'a [Profile], week_xp: u64) -> (res: Option<(&'a str, u64)>)
    ensures
        match res {
            Some((who, xp)) => ahead_in(ranking@, week_xp) == Some((who@, xp as nat)),
            None => ahead_in(ranking@, week_xp) is None,
        },
{
    let mut best: Option<usize> = None;
    let mut i: usize = 0;
    assert(ranking@.take(0) =~= Seq::<Profile>::empty());
    while i < ranking.len()
        invariant
            i <= ranking@.len(),
            match best {
                Some(b) => b < i && next_ahead(ranking@.take(i as int), week_xp) == Some(b as int),
                None => next_ahead(ranking@.take(i as int), week_xp) is None,
            },
        decreases ranking@.len() - i,
    {
        proof {
            assert(ranking@.take(i + 1).drop_last() =~= ranking@.take(i as int));
        }
        if ranking[i].week_xp > week_xp {
            match best {
                Some(b) => {
                    if ranking[i].week_xp < ranking[b].week_xp {
                        best = Some(i);
                    }
                },
                None => {
                    best = Some(i);
                },
            }
        }
        i = i + 1;
    }
    assert(ranking@.take(i as int) =~= ranking@);
    match best {
        Some(b) => Some((ranking[b].display.as_str(), ranking[b].week_xp)),
        None => None,
    }
}

/// The leaderboard that is shown when a period is asked for.
pub open spec fn board_for(profiles: Seq<Profile>, asked: Option<Seq<char>>) -> Seq<StandingModel> {
    ranked(standings_of(profiles, period_asked(asked)), board_order())
}

/// Every place on a leaderboard is that of a player, and says of the player
/// what the profile does.
pub proof fn law_standings_tell_of_their_players(profiles: Seq<Profile>, asked: Option<Seq<char>>, i: int) -> (k: int)
    requires
        0 <= i < board_for(profiles, asked).len(),
    ensures
        0 <= k < profiles.len(),
        ({
            let place = board_for(profiles, asked)[i];
            let p = profiles[k];
            &&& place.user == p.user@
            &&& place.display == p.display@
            &&& place.level == p.level
            &&& place.xp_total == p.xp_total
            &&& place.week_xp == p.week_xp
            &&& place.periods == p.periods
            &&& place.streak == p.streak
            &&& place.today_reviews == p.today.reviews
        }),
{
    let all = standings_of(profiles, period_asked(asked));
    let board = board_for(profiles, asked);
    assert(is_order(board_order()));
    law_ranked_lists_are_in_order(all, board_order());
    assert(board.contains(board[i]));
    assert(all.contains(board[i]));
    let k = choose|k: int| 0 <= k < all.len() && all[k] == board[i];
    k
}

/// Every player stands on the leaderboard, whatever the period.
pub proof fn law_every_player_stands_on_the_board(profiles: Seq<Profile>, asked: Option<Seq<char>>, k: int) -> (i: int)
    requires
        0 <= k < profiles.len(),
    ensures
        0 <= i < board_for(profiles, asked).len() == profiles.len(),
        board_for(profiles, asked)[i].user == profiles[k].user@,
        board_for(profiles, asked)[i].periods == profiles[k].periods,
{
    let all = standings_of(profiles, period_asked(asked));
    let board = board_for(profiles, asked);
    assert(is_order(board_order()));
    law_ranked_lists_are_in_order(all, board_order());
    assert(all[k] == standing_of(profiles[k], period_asked(asked)));
    assert(all.contains(all[k]));
    assert(board.contains(all[k]));
    choose|i: int| 0 <= i < board.len() && board[i] == all[k]
}

proof fn lemma_board_place(profiles: Seq<Profile>, asked: Option<Seq<char>>, i: int, j: int)
    requires
        0 <= i < j < board_for(profiles, asked).len(),
    ensures
        board_for(profiles, asked)[i].xp == board_for(profiles, asked)[i].periods.over(period_asked(asked)),
        board_for(profiles, asked)[j].xp == board_for(profiles, asked)[j].periods.over(period_asked(asked)),
        board_for(profiles, asked)[i].period == period_asked(asked),
        board_for(profiles, asked)[i].xp >= board_for(profiles, asked)[j].xp,
        board_for(profiles, asked)[i].xp == board_for(profiles, asked)[j].xp ==> board_for(profiles, asked)[i].xp_total
            >= board_for(profiles, asked)[j].xp_total,
{
    let all = standings_of(profiles, period_asked(asked));
    let board = board_for(profiles, asked);
    assert(is_order(board_order()));
    law_ranked_lists_are_in_order(all, board_order());
    assert(board.contains(board[i]) && board.contains(board[j]));
    assert(all.contains(board[i]) && all.contains(board[j]));
    assert(!board_order()(board[j], board[i]));
}

proof fn lemma_shown_xp(profiles: Seq<Profile>, asked: Option<Seq<char>>, i: int)
    requires
        0 <= i < board_for(profiles, asked).len(),
    ensures
        board_for(profiles, asked)[i].xp == board_for(profiles, asked)[i].periods.over(period_asked(asked)),
        board_for(profiles, asked)[i].period == period_asked(asked),
{
    let all = standings_of(profiles, period_asked(asked));
    let board = board_for(profiles, asked);
    assert(is_order(board_order()));
    law_ranked_lists_are_in_order(all, board_order());
    assert(board.contains(board[i]));
    assert(all.contains(board[i]));
}

proof fn lemma_period_names()
    ensures
        "hour"@ != "day"@,
        "hour"@ != "week"@,
        "hour"@ != "month"@,
        "hour"@ != "year"@,
        "hour"@ != "all"@,
        "hour"@ != "streak"@,
        "hour"@ != "days"@,
        "day"@ != "week"@,
        "day"@ != "month"@,
        "day"@ != "year"@,
        "day"@ != "all"@,
        "day"@ != "streak"@,
        "day"@ != "days"@,
        "week"@ != "month"@,
        "week"@ != "year"@,
        "week"@ != "all"@,
        "week"@ != "streak"@,
        "week"@ != "days"@,
        "month"@ != "year"@,
        "month"@ != "all"@,
        "month"@ != "streak"@,
        "month"@ != "days"@,
        "year"@ != "all"@,
        "year"@ != "streak"@,
        "year"@ != "days"@,
        "streak"@ != "days"@,
{
    reveal_strlit("hour");
    reveal_strlit("day");
    reveal_strlit("week");
    reveal_strlit("month");
    reveal_strlit("year");
    reveal_strlit("all");
    reveal_strlit("streak");
    reveal_strlit("days");
    assert("hour"@.len() == 4 && "day"@.len() == 3 && "week"@.len() == 4 && "month"@.len() == 5 && "year"@.len() == 4);
    assert("all"@.len() == 3 && "streak"@.len() == 6 && "days"@.len() == 4);
    assert("hour"@[0] == 'h' && "day"@[0] == 'd' && "week"@[0] == 'w' && "year"@[0] == 'y' && "all"@[0] == 'a' && "days"@[0]
        == 'd');
}

/// On the board of each period a place shows the XP of that very period, and
/// whoever earned more in it stands further up.
pub proof fn law_a_board_ranks_by_its_own_period(profiles: Seq<Profile>, i: int, j: int)
    requires
        0 <= i < j < profiles.len(),
    ensures
        ({
            let board = board_for(profiles, Some("hour"@));
            &&& board[i].period == "hour"@ && board[i].xp == board[i].periods.hour
            &&& board[i].periods.hour >= board[j].periods.hour
        }),
        ({
            let board = board_for(profiles, Some("day"@));
            &&& board[i].period == "day"@ && board[i].xp == board[i].periods.day
            &&& board[i].periods.day >= board[j].periods.day
        }),
        ({
            let board = board_for(profiles, Some("week"@));
            &&& board[i].period == "week"@ && board[i].xp == board[i].periods.week
            &&& board[i].periods.week >= board[j].periods.week
        }),
        ({
            let board = board_for(profiles, Some("month"@));
            &&& board[i].period == "month"@ && board[i].xp == board[i].periods.month
            &&& board[i].periods.month >= board[j].periods.month
        }),
        ({
            let board = board_for(profiles, Some("year"@));
            &&& board[i].period == "year"@ && board[i].xp == board[i].periods.year
            &&& board[i].periods.year >= board[j].periods.year
        }),
        ({
            let board = board_for(profiles, Some("all"@));
            &&& board[i].period == "all"@ && board[i].xp == board[i].periods.all
            &&& board[i].periods.all >= board[j].periods.all
        }),
{
    let hour = Some("hour"@);
    let day = Some("day"@);
    let week = Some("week"@);
    let month = Some("month"@);
    let year = Some("year"@);
    let all = Some("all"@);
    lemma_period_names();
    law_the_leaderboard_is_in_order(profiles, period_asked(hour));
    law_the_leaderboard_is_in_order(profiles, period_asked(day));
    law_the_leaderboard_is_in_order(profiles, period_asked(week));
    law_the_leaderboard_is_in_order(profiles, period_asked(month));
    law_the_leaderboard_is_in_order(profiles, period_asked(year));
    law_the_leaderboard_is_in_order(profiles, period_asked(all));
    lemma_board_place(profiles, hour, i, j);
    lemma_board_place(profiles, day, i, j);
    lemma_board_place(profiles, week, i, j);
    lemma_board_place(profiles, month, i, j);
    lemma_board_place(profiles, year, i, j);
    lemma_board_place(profiles, all, i, j);
}

/// A single player's place shows the XP of the period that is asked for too,
/// and whoever asks for no period, or for one that there is not, sees the week.
pub proof fn law_a_place_shows_the_period_asked_for(profiles: Seq<Profile>, asked: Option<Seq<char>>, i: int)
    requires
        0 <= i < profiles.len(),
    ensures
        ({
            let place = board_for(profiles, asked)[i];
            &&& asked == Some("hour"@) ==> place.xp == place.periods.hour
            &&& asked == Some("day"@) ==> place.xp == place.periods.day
            &&& asked == Some("week"@) ==> place.xp == place.periods.week
            &&& asked == Some("month"@) ==> place.xp == place.periods.month
            &&& asked == Some("year"@) ==> place.xp == place.periods.year
            &&& asked == Some("all"@) ==> place.xp == place.periods.all
            &&& asked is None ==> place.xp == place.periods.week && place.period == "week"@
            &&& asked is Some && asked->0 != "hour"@ && asked->0 != "day"@ && asked->0 != "month"@ && asked->0 != "year"@
                && asked->0 != "all"@ ==> place.xp == place.periods.week && place.period == "week"@
        }),
{
    lemma_period_names();
    law_the_leaderboard_is_in_order(profiles, period_asked(asked));
    lemma_shown_xp(profiles, asked, i);
}

/// Among players with the same XP in the period, more XP in total comes first.
pub proof fn law_total_xp_breaks_ties(profiles: Seq<Profile>, asked: Option<Seq<char>>, i: int, j: int)
    requires
        0 <= i < j < profiles.len(),
    ensures
        ({
            let board = board_for(profiles, asked);
            board[i].xp == board[j].xp ==> board[i].xp_total >= board[j].xp_total
        }),
{
    law_the_leaderboard_is_in_order(profiles, period_asked(asked));
    lemma_board_place(profiles, asked, i, j);
}

/// Those who are named on a record.
pub open spec fn holders_of(profiles: Seq<Profile>, window: Seq<char>) -> Seq<HolderModel> {
    at_most(ranked(contenders(profiles, window), record_order()), PODIUM as int)
}

/// Whether a holder of a record is a player, with these numbers.
pub open spec fn holds(h: HolderModel, p: Profile, value: u64, detail: u64, at: i64) -> bool {
    h.user == p.user@ && h.display == p.display@ && h.value == value && h.detail == detail && h.at == at
}

proof fn lemma_contenders(profiles: Seq<Profile>, window: Seq<char>)
    ensures
        forall|h: HolderModel| #[trigger]
            contenders(profiles, window).contains(h) ==> exists|k: int|
                0 <= k < profiles.len() && is_holder(h, #[trigger] profiles[k], window),
        forall|k: int|
            0 <= k < profiles.len() && managed(#[trigger] profiles[k], window).0 > 0 ==> contenders(
                profiles,
                window,
            ).contains(holder_of(profiles[k], window)),
    decreases profiles.len(),
{
    if profiles.len() > 0 {
        let init = profiles.drop_last();
        let p = profiles.last();
        let before = contenders(init, window);
        let after = contenders(profiles, window);
        lemma_contenders(init, window);
        assert forall|h: HolderModel| #[trigger] after.contains(h) implies exists|k: int|
            0 <= k < profiles.len() && is_holder(h, #[trigger] profiles[k], window) by {
            crate::decks::lemma_push_contains(before, holder_of(p, window), h);
            if before.contains(h) {
                let k = choose|k: int| 0 <= k < init.len() && is_holder(h, #[trigger] init[k], window);
                assert(is_holder(h, profiles[k], window));
            } else {
                assert(is_holder(h, profiles[profiles.len() - 1], window));
            }
        }
        assert forall|k: int| 0 <= k < profiles.len() && managed(#[trigger] profiles[k], window).0 > 0 implies after.contains(
            holder_of(profiles[k], window),
        ) by {
            crate::decks::lemma_push_contains(before, holder_of(p, window), holder_of(profiles[k], window));
            if k < init.len() {
                assert(init[k] == profiles[k]);
            }
        }
    }
}

/// A player as a holder of a record.
spec fn holder_of(p: Profile, window: Seq<char>) -> HolderModel {
    let (value, detail, at) = managed(p, window);
    HolderModel { user: p.user@, display: p.display@, value, detail, at }
}

spec fn is_holder(h: HolderModel, p: Profile, window: Seq<char>) -> bool {
    h == holder_of(p, window) && h.value > 0
}

proof fn lemma_holder(profiles: Seq<Profile>, window: Seq<char>, i: int) -> (k: int)
    requires
        0 <= i < holders_of(profiles, window).len(),
    ensures
        0 <= k < profiles.len(),
        holders_of(profiles, window)[i] == holder_of(profiles[k], window),
        holders_of(profiles, window)[i].value > 0,
{
    let all = contenders(profiles, window);
    let list = ranked(all, record_order());
    assert(is_order(record_order()));
    law_ranked_lists_are_in_order(all, record_order());
    lemma_contenders(profiles, window);
    assert(list.contains(list[i]));
    assert(all.contains(list[i]));
    choose|k: int| 0 <= k < profiles.len() && is_holder(list[i], #[trigger] profiles[k], window)
}

/// A record names at most three, in order, and whoever is not named has managed
/// no more than any who are. It names fewer only where no one else has managed
/// anything.
proof fn lemma_podium(profiles: Seq<Profile>, window: Seq<char>)
    ensures
        holders_of(profiles, window).len() <= 3,
        forall|i: int, j: int|
            0 <= i < j < holders_of(profiles, window).len() ==> (#[trigger] holders_of(profiles, window)[i]).value >= (
            #[trigger] holders_of(profiles, window)[j]).value,
        forall|k: int|
            0 <= k < profiles.len() && managed(#[trigger] profiles[k], window).0 > 0 ==> holders_of(profiles, window).contains(
                holder_of(profiles[k], window),
            ) || (holders_of(profiles, window).len() == 3 && managed(profiles[k], window).0 <= holders_of(
                profiles,
                window,
            )[2].value),
{
    let all = contenders(profiles, window);
    let list = ranked(all, record_order());
    let named = holders_of(profiles, window);
    assert(is_order(record_order()));
    law_ranked_lists_are_in_order(all, record_order());
    lemma_contenders(profiles, window);
    assert forall|i: int, j: int| 0 <= i < j < named.len() implies (#[trigger] named[i]).value >= (#[trigger] named[j]).value by {
        assert(!record_order()(list[j], list[i]));
    }
    assert forall|k: int| 0 <= k < profiles.len() && managed(#[trigger] profiles[k], window).0 > 0 implies named.contains(
        holder_of(profiles[k], window),
    ) || (named.len() == 3 && managed(profiles[k], window).0 <= named[2].value) by {
        let h = holder_of(profiles[k], window);
        assert(list.contains(h));
        let at = choose|at: int| 0 <= at < list.len() && list[at] == h;
        if at < named.len() {
            assert(named[at] == h);
        } else {
            assert(named.len() == 3);
            assert(!record_order()(list[at], list[2]));
        }
    }
}

/// The record of days names players with the days on which they have studied
/// and since when, and whoever has studied on the most days comes first.
pub proof fn law_the_days_board_counts_days_studied(profiles: Seq<Profile>, i: int) -> (k: int)
    requires
        0 <= i < holders_of(profiles, "days"@).len(),
    ensures
        0 <= k < profiles.len(),
        holds(
            holders_of(profiles, "days"@)[i],
            profiles[k],
            profiles[k].lifetime.days_active,
            0,
            profiles[k].lifetime.first_day_at,
        ),
        profiles[k].lifetime.days_active > 0,
        forall|n: int|
            0 <= n < profiles.len() ==> (#[trigger] profiles[n]).lifetime.days_active <= holders_of(profiles, "days"@)[0].value,
{
    lemma_period_names();
    let list = holders_of(profiles, "days"@);
    lemma_podium(profiles, "days"@);
    assert forall|n: int| 0 <= n < profiles.len() implies (#[trigger] profiles[n]).lifetime.days_active <= list[0].value by {
        let h = holder_of(profiles[n], "days"@);
        if managed(profiles[n], "days"@).0 > 0 && list.contains(h) {
            let at = choose|at: int| 0 <= at < list.len() && list[at] == h;
            assert(list[0].value >= list[at].value);
        }
    }
    lemma_holder(profiles, "days"@, i)
}

/// The record of streaks names players with their longest streaks and when
/// these ran out, and whoever had the longest comes first.
pub proof fn law_the_streak_board_counts_the_longest_streak(profiles: Seq<Profile>, i: int) -> (k: int)
    requires
        0 <= i < holders_of(profiles, "streak"@).len(),
    ensures
        0 <= k < profiles.len(),
        holds(
            holders_of(profiles, "streak"@)[i],
            profiles[k],
            profiles[k].lifetime.best_streak,
            0,
            profiles[k].lifetime.best_streak_at,
        ),
        profiles[k].lifetime.best_streak > 0,
        forall|n: int|
            0 <= n < profiles.len() ==> (#[trigger] profiles[n]).lifetime.best_streak <= holders_of(profiles, "streak"@)[0].value,
{
    lemma_period_names();
    let list = holders_of(profiles, "streak"@);
    lemma_podium(profiles, "streak"@);
    assert forall|n: int| 0 <= n < profiles.len() implies (#[trigger] profiles[n]).lifetime.best_streak <= list[0].value by {
        let h = holder_of(profiles[n], "streak"@);
        if managed(profiles[n], "streak"@).0 > 0 && list.contains(h) {
            let at = choose|at: int| 0 <= at < list.len() && list[at] == h;
            assert(list[0].value >= list[at].value);
        }
    }
    lemma_holder(profiles, "streak"@, i)
}

/// The record of each other window names players with the XP, the reviews and
/// the beginning of their best over that very window.
pub proof fn law_a_record_shows_its_own_window(profiles: Seq<Profile>, window: Seq<char>, i: int) -> (k: int)
    requires
        0 <= i < holders_of(profiles, window).len(),
        window != "streak"@,
        window != "days"@,
    ensures
        0 <= k < profiles.len(),
        ({
            let h = holders_of(profiles, window)[i];
            let p = profiles[k];
            let best = p.records;
            &&& h.value > 0
            &&& window == "hour"@ ==> holds(h, p, best.hour.xp, best.hour.reviews, best.hour.at)
            &&& window == "day"@ ==> holds(h, p, best.day.xp, best.day.reviews, best.day.at)
            &&& window == "week"@ ==> holds(h, p, best.week.xp, best.week.reviews, best.week.at)
            &&& window == "month"@ ==> holds(h, p, best.month.xp, best.month.reviews, best.month.at)
            &&& window == "year"@ ==> holds(h, p, best.year.xp, best.year.reviews, best.year.at)
        }),
{
    lemma_period_names();
    lemma_holder(profiles, window, i)
}

/// Whoever has the best of a window comes first in its record: no one has had
/// more XP in an hour, a day, a week, a month or a year than the holder.
pub proof fn law_no_one_beats_the_holder(profiles: Seq<Profile>, n: int)
    requires
        0 <= n < profiles.len(),
    ensures
        ({
            let best = profiles[n].records;
            &&& best.hour.xp > 0 ==> holders_of(profiles, "hour"@).len() > 0 && holders_of(profiles, "hour"@)[0].value
                >= best.hour.xp
            &&& best.day.xp > 0 ==> holders_of(profiles, "day"@).len() > 0 && holders_of(profiles, "day"@)[0].value
                >= best.day.xp
            &&& best.week.xp > 0 ==> holders_of(profiles, "week"@).len() > 0 && holders_of(profiles, "week"@)[0].value
                >= best.week.xp
            &&& best.month.xp > 0 ==> holders_of(profiles, "month"@).len() > 0 && holders_of(profiles, "month"@)[0].value
                >= best.month.xp
            &&& best.year.xp > 0 ==> holders_of(profiles, "year"@).len() > 0 && holders_of(profiles, "year"@)[0].value
                >= best.year.xp
        }),
        profiles[n].lifetime.best_streak > 0 ==> holders_of(profiles, "streak"@).len() > 0,
        profiles[n].lifetime.days_active > 0 ==> holders_of(profiles, "days"@).len() > 0,
{
    lemma_period_names();
    lemma_first_holder(profiles, "hour"@, n);
    lemma_first_holder(profiles, "day"@, n);
    lemma_first_holder(profiles, "week"@, n);
    lemma_first_holder(profiles, "month"@, n);
    lemma_first_holder(profiles, "year"@, n);
    lemma_first_holder(profiles, "streak"@, n);
    lemma_first_holder(profiles, "days"@, n);
}

proof fn lemma_first_holder(profiles: Seq<Profile>, window: Seq<char>, n: int)
    requires
        0 <= n < profiles.len(),
    ensures
        managed(profiles[n], window).0 > 0 ==> holders_of(profiles, window).len() > 0 && holders_of(profiles, window)[0].value
            >= managed(profiles[n], window).0,
{
    let list = holders_of(profiles, window);
    lemma_podium(profiles, window);
    let h = holder_of(profiles[n], window);
    if managed(profiles[n], window).0 > 0 && list.contains(h) {
        let at = choose|at: int| 0 <= at < list.len() && list[at] == h;
        assert(list[0].value >= list[at].value);
    }
}

/// A record names at most three, whoever has managed more first and, of those
/// with the same, whoever needed more reviews for it. It leaves someone out only
/// where three others have managed as much.
pub proof fn law_a_record_names_the_best_three(profiles: Seq<Profile>, window: Seq<char>, i: int, j: int)
    requires
        0 <= i < j < holders_of(profiles, window).len(),
    ensures
        holders_of(profiles, window).len() <= 3,
        ({
            let a = holders_of(profiles, window)[i];
            let b = holders_of(profiles, window)[j];
            a.value > b.value || (a.value == b.value && a.detail >= b.detail)
        }),
{
    let all = contenders(profiles, window);
    let list = ranked(all, record_order());
    assert(is_order(record_order()));
    law_ranked_lists_are_in_order(all, record_order());
    assert(!record_order()(list[j], list[i]));
}

/// Streaks and days studied are counted in days, and everything else in XP.
pub proof fn law_records_have_their_units(window: Seq<char>)
    ensures
        unit_of("streak"@) == "days"@,
        unit_of("days"@) == "days"@,
        window != "streak"@ && window != "days"@ ==> unit_of(window) == "xp"@,
{
}

/// What players see ahead of them is someone with more XP in the week, by the
/// name under which that player is shown, and no one in between.
pub proof fn law_the_one_ahead_is_named(ranking: Seq<Profile>, week_xp: u64)
    ensures
        match ahead_in(ranking, week_xp) {
            Some((who, xp)) => xp > week_xp && exists|i: int|
                0 <= i < ranking.len() && (#[trigger] ranking[i]).display@ == who && ranking[i].week_xp == xp && forall|k: int|
                    0 <= k < ranking.len() ==> !(week_xp < (#[trigger] ranking[k]).week_xp < xp),
            None => forall|k: int| 0 <= k < ranking.len() ==> (#[trigger] ranking[k]).week_xp <= week_xp,
        },
{
    law_the_next_ahead_is_the_nearest(ranking, week_xp);
    if let Some(i) = next_ahead(ranking, week_xp) {
        assert(ranking[i].display@ == ranking[i].display@);
    }
}

} // verus!
