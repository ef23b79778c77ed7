//! Personal bests, and the XP of the leaderboard periods.

use vstd::prelude::*;
use vstd::arithmetic::power2::{lemma_pow2_adds, lemma_pow2_pos, lemma_pow2_strictly_increases, lemma2_to64, lemma2_to64_rest, pow2};
use crate::calendar::{civil_of, fits, Clock};
use crate::day_table::{lemma_tally_prefix, tally};
use crate::days::{earned_ok, earned_views};
use crate::double::{rounded, saturated, size, sum, Double};
use crate::double::lemma_sum_grows;
use crate::quests::REVIEW_LIMIT;
use crate::week::{iso_week_of, Week};
use crate::text::same;

verus! {

/// An hour in milliseconds.
pub const HOUR_MS: i64 = 3_600_000;

/// A record in unbounded numbers.
pub struct RecordModel {
    pub xp: int,
    pub reviews: int,
    pub at: int,
}

/// The best a player has ever managed within one window, and when it started.
#[derive(Clone, Copy, Debug, PartialEq, Eq, Structural)]
pub struct Record {
    pub xp: u64,
    pub reviews: u64,
    pub at: i64,
}

impl View for Record {
    type V = RecordModel;

    open spec fn view(&self) -> RecordModel {
        RecordModel { xp: self.xp as int, reviews: self.reviews as int, at: self.at as int }
    }
}

/// No record.
pub open spec fn no_record() -> RecordModel {
    RecordModel { xp: 0, reviews: 0, at: 0 }
}

impl Default for Record {
    fn default() -> (res: Self)
        ensures
            res@ == no_record(),
    {
        Record { xp: 0, reviews: 0, at: 0 }
    }
}

/// Personal bests over the windows the leaderboard uses, the hour rolling.
#[derive(Clone, Copy, Debug, PartialEq, Eq, Structural)]
pub struct Records {
    pub hour: Record,
    pub day: Record,
    pub week: Record,
    pub month: Record,
    pub year: Record,
}

impl Default for Records {
    fn default() -> (res: Self)
        ensures
            res.hour@ == no_record(),
            res.day@ == no_record(),
            res.week@ == no_record(),
            res.month@ == no_record(),
            res.year@ == no_record(),
    {
        Records {
            hour: Record::default(),
            day: Record::default(),
            week: Record::default(),
            month: Record::default(),
            year: Record::default(),
        }
    }
}

impl Records {
    /// The windows.
    pub const NAMES: [&'static str; 5] = ["hour", "day", "week", "month", "year"];

    /// The record over a window. A window of no known name is a day.
    pub open spec fn over(self, window: Seq<char>) -> Record {
        if window == "hour"@ {
            self.hour
        } else if window == "week"@ {
            self.week
        } else if window == "month"@ {
            self.month
        } else if window == "year"@ {
            self.year
        } else {
            self.day
        }
    }

    /// The record over a window.
    pub fn get(&self, window: &str) -> (res: Record)
        ensures
            res == self.over(window@),
    {
        if same(window, "hour") {
            self.hour
        } else if same(window, "week") {
            self.week
        } else if same(window, "month") {
            self.month
        } else if same(window, "year") {
            self.year
        } else {
            self.day
        }
    }
}

/// XP earned in each leaderboard period. The hour counts review XP only, without
/// the quest, achievement and streak bonuses that land on a whole day.
#[derive(Clone, Copy, Debug, PartialEq, Eq, Structural)]
pub struct Periods {
    pub hour: u64,
    pub day: u64,
    pub week: u64,
    pub month: u64,
    pub year: u64,
    pub all: u64,
}

impl Default for Periods {
    fn default() -> (res: Self)
        ensures
            res == (Periods { hour: 0, day: 0, week: 0, month: 0, year: 0, all: 0 }),
    {
        Periods { hour: 0, day: 0, week: 0, month: 0, year: 0, all: 0 }
    }
}

impl Periods {
    /// The periods.
    pub const NAMES: [&'static str; 6] = ["hour", "day", "week", "month", "year", "all"];

    /// The XP of a period. A period of no known name is a week.
    pub open spec fn over(self, period: Seq<char>) -> u64 {
        if period == "hour"@ {
            self.hour
        } else if period == "day"@ {
            self.day
        } else if period == "month"@ {
            self.month
        } else if period == "year"@ {
            self.year
        } else if period == "all"@ {
            self.all
        } else {
            self.week
        }
    }

    /// The XP of a period.
    pub fn get(&self, period: &str) -> (res: u64)
        ensures
            res == self.over(period@),
    {
        if same(period, "hour") {
            self.hour
        } else if same(period, "day") {
            self.day
        } else if same(period, "month") {
            self.month
        } else if same(period, "year") {
            self.year
        } else if same(period, "all") {
            self.all
        } else {
            self.week
        }
    }
}

/// A window over the reviews: where it starts, the XP in it, and the best
/// that any window has held so far.
pub struct HourModel {
    pub start: int,
    pub xp: int,
    pub best: RecordModel,
}

/// Take out of a window the reviews that lie an hour or more before `at`.
pub open spec fn shed(earned: Seq<(int, int)>, at: int, start: int, xp: int) -> (int, int)
    decreases earned.len() - start,
{
    if 0 <= start < earned.len() && earned[start].0 <= at - HOUR_MS {
        shed(earned, at, start + 1, sum(xp, -earned[start].1))
    } else {
        (start, xp)
    }
}

/// The window after each review in turn.
pub open spec fn rolling_hour(earned: Seq<(int, int)>, n: nat) -> HourModel
    decreases n,
{
    if n == 0 {
        HourModel { start: 0, xp: 0, best: no_record() }
    } else {
        let before = rolling_hour(earned, (n - 1) as nat);
        let (at, gained) = earned[n - 1];
        let (start, xp) = shed(earned, at, before.start, sum(before.xp, gained));
        let points = saturated(rounded(xp));
        let best = if points > before.best.xp {
            RecordModel { xp: points, reviews: n - start, at: earned[start].0 }
        } else {
            before.best
        };
        HourModel { start, xp, best }
    }
}

/// The best rolling hour in a player's whole history, by the XP its reviews
/// earned.
pub fn best_hour(earned: &Vec<(i64, Double)>) -> (res: Record)
    requires
        earned@.len() <= REVIEW_LIMIT,
        forall|i: int| 0 <= i < earned@.len() ==> earned_ok(#[trigger] earned@[i]),
        forall|i: int| 0 <= i < earned@.len() ==> fits((#[trigger] earned@[i]).0 - HOUR_MS),
    ensures
        res@ == rolling_hour(earned_views(earned@), earned@.len()).best,
{
    let ghost all = earned_views(earned@);
    let mut best = Record::default();
    let mut xp = Double::zero();
    let mut start: usize = 0;
    let mut end: usize = 0;
    proof {
        assert(0 * pow2(1079) == 0) by (nonlinear_arith);
        lemma_window_bound();
    }
    while end < earned.len()
        invariant
            all == earned_views(earned@),
            earned@.len() <= REVIEW_LIMIT,
            forall|i: int| 0 <= i < earned@.len() ==> earned_ok(#[trigger] earned@[i]),
            forall|i: int| 0 <= i < earned@.len() ==> fits((#[trigger] earned@[i]).0 - HOUR_MS),
            0 <= start <= end <= earned@.len(),
            xp.wf(),
            size(xp@) <= (end + start) * pow2(1079),
            best@ == rolling_hour(all, end as nat).best,
            xp@ == rolling_hour(all, end as nat).xp,
            start == rolling_hour(all, end as nat).start,
            0x4_0000_0000_0000 * pow2(1079) <= pow2(1300),
            pow2(1079) <= pow2(1300),
        decreases earned@.len() - end,
    {
        let at: i64 = earned[end].0;
        let gained = earned[end].1;
        let ghost start0 = start as int;
        proof {
            assert(earned_ok(earned@[end as int]));
            assert(all[end as int] == (at as int, gained@));
            assert((end + start) * pow2(1079) <= 0x4_0000_0000_0000 * pow2(1079)) by (nonlinear_arith)
                requires
                    end + start <= 0x4_0000_0000_0000,
            ;
            assert(1 * pow2(1079) == pow2(1079)) by (nonlinear_arith);
            lemma_pow2_pos(1079);
            lemma_pow2_pos(1074);
            lemma_sum_grows(xp@, gained@, (end + start) as nat, 1, 1079);
        }
        xp = xp.plus(gained);
        let ghost xp0 = xp@;
        while earned[start].0 <= at - HOUR_MS
            invariant
                all == earned_views(earned@),
                earned@.len() <= REVIEW_LIMIT,
                forall|i: int| 0 <= i < earned@.len() ==> earned_ok(#[trigger] earned@[i]),
                at == earned@[end as int].0,
                fits(at - HOUR_MS),
                0 <= start <= end < earned@.len(),
                xp.wf(),
                size(xp@) <= (end + 1 + start) * pow2(1079),
                shed(all, at as int, start0, xp0) == shed(all, at as int, start as int, xp@),
                0x4_0000_0000_0000 * pow2(1079) <= pow2(1300),
                pow2(1079) <= pow2(1300),
            decreases end - start,
        {
            proof {
                assert(all[start as int] == (earned@[start as int].0 as int, earned@[start as int].1@));
                assert(earned_ok(earned@[start as int]));
                assert((end + 1 + start) * pow2(1079) <= 0x4_0000_0000_0000 * pow2(1079)) by (nonlinear_arith)
                    requires
                        end + 1 + start <= 0x4_0000_0000_0000,
                ;
                assert(1 * pow2(1079) == pow2(1079)) by (nonlinear_arith);
                lemma_pow2_pos(1079);
                lemma_pow2_pos(1074);
                lemma_sum_grows(xp@, -earned@[start as int].1@, (end + 1 + start) as nat, 1, 1079);
                assert(start < end) by {
                    if start == end {
                        assert(earned@[start as int].0 == at);
                    }
                }
            }
            xp = xp.minus(earned[start].1);
            start = start + 1;
        }
        assert(all[start as int].0 == earned@[start as int].0);
        let points: u64 = xp.round();
        if points > best.xp {
            best = Record { xp: points, reviews: (end - start + 1) as u64, at: earned[start].0 };
        }
        end = end + 1;
    }
    best
}

proof fn lemma_window_bound()
    ensures
        0x4_0000_0000_0000 * pow2(1079) <= pow2(1300),
        pow2(1079) <= pow2(1300),
{
    lemma2_to64_rest();
    lemma2_to64();
    lemma_pow2_adds(50, 1079);
    lemma_pow2_strictly_increases(1129, 1300);
    lemma_pow2_strictly_increases(1079, 1300);
}

/// The XP of the reviews of the last hour, added up one after the other.
pub open spec fn last_hour(earned: Seq<(int, int)>, now: int) -> int
    decreases earned.len(),
{
    if earned.len() == 0 {
        0
    } else {
        let before = last_hour(earned.drop_last(), now);
        let (at, xp) = earned.last();
        if now - HOUR_MS < at <= now {
            sum(before, xp)
        } else {
            before
        }
    }
}

/// The XP of the reviews of the last hour.
pub fn hour_xp(earned: &Vec<(i64, Double)>, now: i64) -> (res: u64)
    requires
        earned@.len() <= REVIEW_LIMIT,
        forall|i: int| 0 <= i < earned@.len() ==> earned_ok(#[trigger] earned@[i]),
        fits(now - HOUR_MS),
    ensures
        res == saturated(rounded(last_hour(earned_views(earned@), now as int))),
{
    let ghost all = earned_views(earned@);
    let mut xp = Double::zero();
    let mut i: usize = 0;
    proof {
        assert(0 * pow2(1079) == 0) by (nonlinear_arith);
        assert(all.take(0) =~= Seq::<(int, int)>::empty());
        lemma_window_bound();
    }
    while i < earned.len()
        invariant
            all == earned_views(earned@),
            earned@.len() <= REVIEW_LIMIT,
            forall|k: int| 0 <= k < earned@.len() ==> earned_ok(#[trigger] earned@[k]),
            fits(now - HOUR_MS),
            0 <= i <= earned@.len(),
            xp.wf(),
            size(xp@) <= i * pow2(1079),
            xp@ == last_hour(all.take(i as int), now as int),
            0x4_0000_0000_0000 * pow2(1079) <= pow2(1300),
            pow2(1079) <= pow2(1300),
        decreases earned@.len() - i,
    {
        let (at, gained) = earned[i];
        proof {
            assert(earned_ok(earned@[i as int]));
            assert(all.take(i + 1).drop_last() =~= all.take(i as int));
            assert(all.take(i + 1).last() == (at as int, gained@));
            assert(i * pow2(1079) <= 0x4_0000_0000_0000 * pow2(1079)) by (nonlinear_arith)
                requires
                    i <= 0x4_0000_0000_0000,
            ;
            assert((i + 1) * pow2(1079) == i * pow2(1079) + pow2(1079)) by (nonlinear_arith);
            assert(1 * pow2(1079) == pow2(1079)) by (nonlinear_arith);
            lemma_pow2_pos(1079);
            lemma_pow2_pos(1074);
            lemma_sum_grows(xp@, gained@, i as nat, 1, 1079);
        }
        if at > now - HOUR_MS && at <= now {
            xp = xp.plus(gained);
        }
        i = i + 1;
    }
    assert(all.take(i as int) =~= all);
    xp.round()
}

/// What a day brought, in unbounded numbers.
pub struct ScoreModel {
    pub day: int,
    pub xp: nat,
    pub reviews: nat,
}

/// What a day brought.
#[derive(Clone, Copy)]
pub struct Score {
    pub day: i64,
    pub xp: u64,
    pub reviews: u64,
}

impl View for Score {
    type V = ScoreModel;

    open spec fn view(&self) -> ScoreModel {
        ScoreModel { day: self.day as int, xp: self.xp as nat, reviews: self.reviews as nat }
    }
}

pub open spec fn score_views(scores: Seq<Score>) -> Seq<ScoreModel> {
    scores.map_values(|s: Score| s@)
}

/// The XP of the days.
pub open spec fn score_xp(scores: Seq<ScoreModel>) -> Seq<nat> {
    scores.map_values(|s: ScoreModel| s.xp)
}

/// The reviews of the days.
pub open spec fn score_reviews(scores: Seq<ScoreModel>) -> Seq<nat> {
    scores.map_values(|s: ScoreModel| s.reviews)
}

/// The spans of whole days over which XP is added up.
#[derive(Clone, Copy, Debug, PartialEq, Eq, Structural)]
pub enum Span {
    Day,
    Week,
    Month,
    Year,
}

/// The number of the span that a day belongs to, by the instant at which the
/// day starts.
pub open spec fn span_key(span: Span, week: Week, day: int, start: int) -> int {
    let date = week.date_of(start);
    match span {
        Span::Day => day,
        Span::Week => iso_week_of(date).0 * 100 + iso_week_of(date).1,
        Span::Month => civil_of(date).0 * 100 + civil_of(date).1,
        Span::Year => civil_of(date).0,
    }
}

/// The spans in which XP was earned, each with its XP, its reviews and the
/// start of its first day.
pub open spec fn spans_of(scores: Seq<ScoreModel>, span: Span, clock: Clock, week: Week) -> Map<int, RecordModel>
    decreases scores.len(),
{
    if scores.len() == 0 {
        Map::empty()
    } else {
        let before = spans_of(scores.drop_last(), span, clock, week);
        let s = scores.last();
        if s.xp == 0 {
            before
        } else {
            let start = clock.start_of(s.day);
            let key = span_key(span, week, s.day, start);
            let old = if before.dom().contains(key) {
                before[key]
            } else {
                RecordModel { xp: 0, reviews: 0, at: start }
            };
            before.insert(key, RecordModel { xp: old.xp + s.xp, reviews: old.reviews + s.reviews, at: old.at })
        }
    }
}

/// Whether no span holds more XP than this one, and none that comes later as
/// much.
pub open spec fn is_top(spans: Map<int, RecordModel>, key: int) -> bool {
    &&& spans.dom().contains(key)
    &&& forall|k: int| #[trigger]
        spans.dom().contains(k) ==> spans[k].xp < spans[key].xp || (spans[k].xp == spans[key].xp && k <= key)
}

/// The best of some spans, the latest of equally good ones.
pub open spec fn best_of(spans: Map<int, RecordModel>) -> RecordModel {
    if exists|key: int| is_top(spans, key) {
        spans[choose|key: int| is_top(spans, key)]
    } else {
        no_record()
    }
}

fn key_of(span: Span, clock: &Clock, week: &Week, day: i64) -> (res: i64)
    requires
        clock.tells_start(day as int),
        week.reads(clock.start_of(day as int)),
    ensures
        res == span_key(span, *week, day as int, clock.start_of(day as int)),
{
    match span {
        Span::Day => day,
        Span::Week => {
            let (year, number) = week.of(clock.day_start_ms(day));
            year as i64 * 100 + number as i64
        },
        Span::Month => {
            let (year, month) = week.month_of(clock.day_start_ms(day));
            year as i64 * 100 + month as i64
        },
        Span::Year => week.year_of(clock.day_start_ms(day)) as i64,
    }
}

/// The spans in a list, each under its number.
spec fn span_map(list: Seq<(i64, Record)>) -> Map<int, RecordModel>
    decreases list.len(),
{
    if list.len() == 0 {
        Map::empty()
    } else {
        span_map(list.drop_last()).insert(list.last().0 as int, list.last().1@)
    }
}

spec fn distinct_keys(list: Seq<(i64, Record)>) -> bool {
    forall|i: int, j: int| 0 <= i < j < list.len() ==> (#[trigger] list[i]).0 != (#[trigger] list[j]).0
}

proof fn lemma_span_map(list: Seq<(i64, Record)>)
    requires
        distinct_keys(list),
    ensures
        forall|i: int|
            0 <= i < list.len() ==> span_map(list).dom().contains((#[trigger] list[i]).0 as int) && span_map(list)[list[i].0 as int]
                == list[i].1@,
        forall|k: int| #[trigger]
            span_map(list).dom().contains(k) ==> exists|i: int| 0 <= i < list.len() && (#[trigger] list[i]).0 == k,
    decreases list.len(),
{
    if list.len() > 0 {
        let init = list.drop_last();
        lemma_span_map(init);
        assert forall|i: int| 0 <= i < list.len() implies span_map(list).dom().contains((#[trigger] list[i]).0 as int)
            && span_map(list)[list[i].0 as int] == list[i].1@ by {
            if i < list.len() - 1 {
                assert(init[i] == list[i]);
            }
        }
        assert forall|k: int| #[trigger] span_map(list).dom().contains(k) implies exists|i: int|
            0 <= i < list.len() && (#[trigger] list[i]).0 == k by {
            if k == list.last().0 {
                assert(list[list.len() - 1].0 == k);
            } else {
                assert(span_map(init).dom().contains(k));
                let i = choose|i: int| 0 <= i < init.len() && (#[trigger] init[i]).0 == k;
                assert(list[i].0 == k);
            }
        }
    }
}

/// Setting the record of a span in a list.
proof fn lemma_span_update(list: Seq<(i64, Record)>, i: int, r: Record)
    requires
        distinct_keys(list),
        0 <= i < list.len(),
    ensures
        span_map(list.update(i, (list[i].0, r))) == span_map(list).insert(list[i].0 as int, r@),
        distinct_keys(list.update(i, (list[i].0, r))),
{
    let after = list.update(i, (list[i].0, r));
    assert(distinct_keys(after)) by {
        assert forall|a: int, b: int| 0 <= a < b < after.len() implies (#[trigger] after[a]).0 != (#[trigger] after[b]).0 by {
            assert(list[a].0 != list[b].0);
        }
    }
    lemma_span_map(list);
    lemma_span_map(after);
    let want = span_map(list).insert(list[i].0 as int, r@);
    assert forall|k: int| span_map(after).dom().contains(k) == want.dom().contains(k) by {
        if span_map(after).dom().contains(k) {
            let j = choose|j: int| 0 <= j < after.len() && (#[trigger] after[j]).0 == k;
            assert(list[j].0 == k);
        }
        if want.dom().contains(k) && k != list[i].0 {
            let j = choose|j: int| 0 <= j < list.len() && (#[trigger] list[j]).0 == k;
            assert(after[j].0 == k);
        }
        assert(after[i].0 == list[i].0);
    }
    assert forall|k: int| span_map(after).dom().contains(k) implies span_map(after)[k] == want[k] by {
        let j = choose|j: int| 0 <= j < after.len() && (#[trigger] after[j]).0 == k;
        assert(span_map(after)[after[j].0 as int] == after[j].1@);
        if j != i {
            assert(after[j] == list[j]);
            assert(list[j].0 != list[i].0) by {
                if j < i {
                    assert(list[j].0 != list[i].0);
                } else {
                    assert(list[i].0 != list[j].0);
                }
            }
        }
    }
    assert(span_map(after) =~= want);
}

fn find_key(list: &Vec<(i64, Record)>, key: i64) -> (res: Option<usize>)
    ensures
        res matches Some(i) ==> i < list@.len() && list@[i as int].0 == key,
        res is None ==> forall|i: int| 0 <= i < list@.len() ==> (#[trigger] list@[i]).0 != key,
{
    let mut i: usize = list.len();
    while i > 0
        invariant
            i <= list@.len(),
            forall|k: int| i <= k < list@.len() ==> (#[trigger] list@[k]).0 != key,
        decreases i,
    {
        i = i - 1;
        if list[i].0 == key {
            return Some(i);
        }
    }
    None
}

/// Whether the days of some scores can be told within the range of `i64` and
/// of the calendar.
pub open spec fn scores_readable(scores: Seq<ScoreModel>, clock: Clock, week: Week) -> bool {
    forall|i: int|
        0 <= i < scores.len() ==> clock.tells_start((#[trigger] scores[i]).day) && week.reads(
            clock.start_of(scores[i].day),
        )
}

fn collect_spans(scores: &Vec<Score>, span: Span, clock: &Clock, week: &Week) -> (list: Vec<(i64, Record)>)
    requires
        scores_readable(score_views(scores@), *clock, *week),
        tally(score_xp(score_views(scores@))) <= u64::MAX,
        tally(score_reviews(score_views(scores@))) <= u64::MAX,
    ensures
        distinct_keys(list@),
        span_map(list@) == spans_of(score_views(scores@), span, *clock, *week),
{
    let ghost all = score_views(scores@);
    let mut list: Vec<(i64, Record)> = Vec::new();
    let mut i: usize = 0;
    assert(all.take(0) =~= Seq::<ScoreModel>::empty());
    while i < scores.len()
        invariant
            all == score_views(scores@),
            i <= scores@.len(),
            scores_readable(all, *clock, *week),
            tally(score_xp(all)) <= u64::MAX,
            tally(score_reviews(all)) <= u64::MAX,
            distinct_keys(list@),
            span_map(list@) == spans_of(all.take(i as int), span, *clock, *week),
            forall|k: int|
                0 <= k < list@.len() ==> (#[trigger] list@[k]).1.xp <= tally(score_xp(all.take(i as int)))
                    && list@[k].1.reviews <= tally(score_reviews(all.take(i as int))),
        decreases scores@.len() - i,
    {
        let s = scores[i];
        let ghost next = all.take(i + 1);
        let ghost list0 = list@;
        proof {
            assert(all[i as int] == s@);
            assert(next.drop_last() =~= all.take(i as int));
            assert(next.last() == s@);
            assert(score_xp(next).drop_last() =~= score_xp(all.take(i as int)));
            assert(score_reviews(next).drop_last() =~= score_reviews(all.take(i as int)));
            assert(score_xp(next) =~= score_xp(all).take(i + 1));
            assert(score_reviews(next) =~= score_reviews(all).take(i + 1));
            lemma_tally_prefix(score_xp(all), i + 1);
            lemma_tally_prefix(score_reviews(all), i + 1);
            lemma_span_map(list@);
        }
        if s.xp > 0 {
            let key: i64 = key_of(span, clock, week, s.day);
            match find_key(&list, key) {
                Some(k) => {
                    let old = list[k].1;
                    assert(list@[k as int].1.xp <= tally(score_xp(all.take(i as int))));
                    let r = Record { xp: old.xp + s.xp, reviews: old.reviews + s.reviews, at: old.at };
                    proof {
                        lemma_span_update(list@, k as int, r);
                    }
                    list.set(k, (key, r));
                    assert(list@ =~= list0.update(k as int, (key, r)));
                },
                None => {
                    let r = Record { xp: s.xp, reviews: s.reviews, at: clock.day_start_ms(s.day) };
                    list.push((key, r));
                    proof {
                        assert(list@.drop_last() =~= list0);
                        assert(!span_map(list0).dom().contains(key as int)) by {
                            if span_map(list0).dom().contains(key as int) {
                                let j = choose|j: int| 0 <= j < list0.len() && (#[trigger] list0[j]).0 == key;
                                assert(list0[j].0 == key);
                            }
                        }
                    }
                },
            }
        }
        i = i + 1;
    }
    assert(all.take(i as int) =~= all);
    list
}

/// The best sum over whole days that share a span, such as a week or a month.
pub fn best_span(scores: &Vec<Score>, span: Span, clock: &Clock, week: &Week) -> (res: Record)
    requires
        scores_readable(score_views(scores@), *clock, *week),
        tally(score_xp(score_views(scores@))) <= u64::MAX,
        tally(score_reviews(score_views(scores@))) <= u64::MAX,
    ensures
        res@ == best_of(spans_of(score_views(scores@), span, *clock, *week)),
{
    let list = collect_spans(scores, span, clock, week);
    let ghost spans = span_map(list@);
    proof {
        lemma_span_map(list@);
    }
    if list.len() == 0 {
        proof {
            assert forall|key: int| !is_top(spans, key) by {
                assert(!spans.dom().contains(key));
            }
        }
        return Record::default();
    }
    let mut best: usize = 0;
    let mut i: usize = 1;
    while i < list.len()
        invariant
            0 <= best < i <= list@.len(),
            forall|k: int|
                0 <= k < i ==> (#[trigger] list@[k]).1.xp < list@[best as int].1.xp || (list@[k].1.xp
                    == list@[best as int].1.xp && list@[k].0 <= list@[best as int].0),
        decreases list@.len() - i,
    {
        let c = list[i];
        let b = list[best];
        if c.1.xp > b.1.xp || (c.1.xp == b.1.xp && c.0 >= b.0) {
            best = i;
        }
        i = i + 1;
    }
    proof {
        let key = list@[best as int].0 as int;
        assert(spans.dom().contains(key));
        assert(spans[key] == list@[best as int].1@);
        assert forall|k: int| #[trigger] spans.dom().contains(k) implies spans[k].xp < spans[key].xp || (spans[k].xp
            == spans[key].xp && k <= key) by {
            let j = choose|j: int| 0 <= j < list@.len() && (#[trigger] list@[j]).0 == k;
            assert(spans[list@[j].0 as int] == list@[j].1@);
        }
        assert(is_top(spans, key));
        let top = choose|k: int| is_top(spans, k);
        assert(is_top(spans, top));
        assert(spans.dom().contains(top));
        assert(top == key);
    }
    list[best].1
}

/// Whether two instants fall into the same week, month or year; every two fall
/// into the same day here.
pub open spec fn same_span(span: Span, week: Week, a: int, b: int) -> bool {
    let x = week.date_of(a);
    let y = week.date_of(b);
    match span {
        Span::Day => true,
        Span::Week => iso_week_of(x) == iso_week_of(y),
        Span::Month => civil_of(x).0 == civil_of(y).0 && civil_of(x).1 == civil_of(y).1,
        Span::Year => civil_of(x).0 == civil_of(y).0,
    }
}

/// The XP of the days from `from` to `to` that start in the same span as `now`.
pub open spec fn period_sum(
    scores: Seq<ScoreModel>,
    span: Span,
    clock: Clock,
    week: Week,
    from: int,
    to: int,
    now: int,
) -> nat
    decreases scores.len(),
{
    if scores.len() == 0 {
        0
    } else {
        let before = period_sum(scores.drop_last(), span, clock, week, from, to, now);
        let s = scores.last();
        if s.xp > 0 && from <= s.day <= to && same_span(span, week, clock.start_of(s.day), now) {
            before + s.xp
        } else {
            before
        }
    }
}

fn spans_match(span: Span, week: &Week, a: i64, b: i64) -> (res: bool)
    requires
        week.reads(a as int),
        week.reads(b as int),
    ensures
        res == same_span(span, *week, a as int, b as int),
{
    match span {
        Span::Day => true,
        Span::Week => {
            let x = week.of(a);
            let y = week.of(b);
            x.0 == y.0 && x.1 == y.1
        },
        Span::Month => {
            let x = week.month_of(a);
            let y = week.month_of(b);
            x.0 == y.0 && x.1 == y.1
        },
        Span::Year => week.year_of(a) == week.year_of(b),
    }
}

/// The XP of the days from `from` to `to` that start in the same span as `now`.
pub fn period_xp(scores: &Vec<Score>, span: Span, clock: &Clock, week: &Week, from: i64, to: i64, now: i64) -> (res: u64)
    requires
        scores_readable(score_views(scores@), *clock, *week),
        tally(score_xp(score_views(scores@))) <= u64::MAX,
        week.reads(now as int),
    ensures
        res == period_sum(score_views(scores@), span, *clock, *week, from as int, to as int, now as int),
{
    let ghost all = score_views(scores@);
    let mut xp: u64 = 0;
    let mut i: usize = 0;
    assert(all.take(0) =~= Seq::<ScoreModel>::empty());
    while i < scores.len()
        invariant
            all == score_views(scores@),
            i <= scores@.len(),
            scores_readable(all, *clock, *week),
            tally(score_xp(all)) <= u64::MAX,
            week.reads(now as int),
            xp == period_sum(all.take(i as int), span, *clock, *week, from as int, to as int, now as int),
            xp <= tally(score_xp(all.take(i as int))),
        decreases scores@.len() - i,
    {
        let s = scores[i];
        let ghost next = all.take(i + 1);
        proof {
            assert(all[i as int] == s@);
            assert(next.drop_last() =~= all.take(i as int));
            assert(next.last() == s@);
            assert(score_xp(next).drop_last() =~= score_xp(all.take(i as int)));
            assert(score_xp(next) =~= score_xp(all).take(i + 1));
            lemma_tally_prefix(score_xp(all), i + 1);
        }
        if s.xp > 0 && from <= s.day && s.day <= to && spans_match(span, week, clock.day_start_ms(s.day), now) {
            xp = xp + s.xp;
        }
        i = i + 1;
    }
    assert(all.take(i as int) =~= all);
    xp
}

/// The XP of a period is part of the XP of all days.
pub proof fn law_no_period_exceeds_the_total(
    scores: Seq<ScoreModel>,
    span: Span,
    clock: Clock,
    week: Week,
    from: int,
    to: int,
    now: int,
)
    ensures
        period_sum(scores, span, clock, week, from, to, now) <= tally(score_xp(scores)),
    decreases scores.len(),
{
    if scores.len() > 0 {
        law_no_period_exceeds_the_total(scores.drop_last(), span, clock, week, from, to, now);
        assert(score_xp(scores).drop_last() =~= score_xp(scores.drop_last()));
        assert(score_xp(scores).last() == scores.last().xp);
    }
}

/// The number of the span that an instant belongs to.
spec fn key_at(span: Span, week: Week, now: int) -> int {
    span_key(span, week, 0, now)
}

/// The XP of a span, or none.
spec fn xp_under(spans: Map<int, RecordModel>, key: int) -> int {
    if spans.dom().contains(key) {
        spans[key].xp
    } else {
        0
    }
}

proof fn lemma_period_within_span(
    scores: Seq<ScoreModel>,
    span: Span,
    clock: Clock,
    week: Week,
    from: int,
    to: int,
    now: int,
)
    requires
        span != Span::Day,
    ensures
        period_sum(scores, span, clock, week, from, to, now) <= xp_under(
            spans_of(scores, span, clock, week),
            key_at(span, week, now),
        ),
        forall|k: int| #[trigger]
            spans_of(scores, span, clock, week).dom().contains(k) ==> spans_of(scores, span, clock, week)[k].xp >= 0,
        spans_of(scores, span, clock, week).dom().finite(),
    decreases scores.len(),
{
    if scores.len() > 0 {
        lemma_period_within_span(scores.drop_last(), span, clock, week, from, to, now);
    }
}

/// Some span of finitely many is the best.
pub proof fn lemma_top_exists(spans: Map<int, RecordModel>) -> (key: int)
    requires
        spans.dom().finite(),
        spans.dom().len() > 0,
    ensures
        is_top(spans, key),
    decreases spans.dom().len(),
{
    let k = spans.dom().choose();
    let rest = spans.remove(k);
    assert(rest.dom() =~= spans.dom().remove(k));
    if rest.dom().len() == 0 {
        assert forall|j: int| #[trigger] spans.dom().contains(j) implies j == k by {
            assert(j != k ==> rest.dom().contains(j));
        }
        k
    } else {
        let top = lemma_top_exists(rest);
        assert forall|j: int| #[trigger] spans.dom().contains(j) && j != k implies rest.dom().contains(j) && rest[j] == spans[j] by {}
        if spans[top].xp < spans[k].xp || (spans[top].xp == spans[k].xp && top <= k) {
            assert forall|j: int| #[trigger] spans.dom().contains(j) implies spans[j].xp < spans[k].xp || (spans[j].xp
                == spans[k].xp && j <= k) by {
                if j != k {
                    assert(rest.dom().contains(j));
                }
            }
            k
        } else {
            assert forall|j: int| #[trigger] spans.dom().contains(j) implies spans[j].xp < spans[top].xp || (spans[j].xp
                == spans[top].xp && j <= top) by {
                if j != k {
                    assert(rest.dom().contains(j));
                }
            }
            top
        }
    }
}

/// A running week, month or year is never better than the best one.
pub proof fn law_periods_stay_within_their_record(
    scores: Seq<ScoreModel>,
    span: Span,
    clock: Clock,
    week: Week,
    from: int,
    to: int,
    now: int,
)
    requires
        span != Span::Day,
    ensures
        period_sum(scores, span, clock, week, from, to, now) <= best_of(spans_of(scores, span, clock, week)).xp,
{
    let spans = spans_of(scores, span, clock, week);
    let key = key_at(span, week, now);
    lemma_period_within_span(scores, span, clock, week, from, to, now);
    if spans.dom().len() > 0 {
        let some = lemma_top_exists(spans);
        let top = choose|k: int| is_top(spans, k);
        assert(is_top(spans, top));
        assert(spans.dom().contains(top));
        if spans.dom().contains(key) {
            assert(spans[key].xp <= spans[top].xp);
        }
    } else {
        assert(spans.dom() =~= Set::empty());
        assert forall|k: int| !is_top(spans, k) by {
            assert(!spans.dom().contains(k));
        }
    }
}

/// A review counts for the last hour where it was made within an hour of now, and
/// not later than now.
pub proof fn law_the_last_hour_holds_an_hour(earned: Seq<(int, int)>, at: int, xp: int, now: int)
    ensures
        last_hour(Seq::empty(), now) == 0,
        now - 3_600_000 < at <= now ==> last_hour(earned.push((at, xp)), now) == sum(last_hour(earned, now), xp),
        at <= now - 3_600_000 || at > now ==> last_hour(earned.push((at, xp)), now) == last_hour(earned, now),
{
    assert(earned.push((at, xp)).drop_last() =~= earned);
}

proof fn lemma_shed_window(earned: Seq<(int, int)>, at: int, start: int, xp: int, end: int)
    requires
        0 <= start <= end < earned.len(),
        earned[end].0 == at,
        start > 0 ==> earned[start - 1].0 <= at - HOUR_MS,
    ensures
        ({
            let s = shed(earned, at, start, xp).0;
            &&& start <= s <= end
            &&& earned[s].0 > at - HOUR_MS
            &&& s > 0 ==> earned[s - 1].0 <= at - HOUR_MS
        }),
    decreases end - start,
{
    if earned[start].0 <= at - HOUR_MS {
        lemma_shed_window(earned, at, start + 1, sum(xp, -earned[start].1), end);
    }
}

/// The window that rolls over the reviews holds, after each of them, those of the
/// hour up to it and no others.
pub proof fn law_the_rolling_hour_holds_an_hour(earned: Seq<(int, int)>, n: nat)
    requires
        1 <= n <= earned.len(),
        forall|i: int, j: int| 0 <= i <= j < earned.len() ==> (#[trigger] earned[i]).0 <= (#[trigger] earned[j]).0,
    ensures
        ({
            let start = rolling_hour(earned, n).start;
            let at = earned[n - 1].0;
            &&& 0 <= start < n
            &&& forall|k: int| start <= k < n ==> (#[trigger] earned[k]).0 > at - 3_600_000
            &&& forall|k: int| 0 <= k < start ==> (#[trigger] earned[k]).0 <= at - 3_600_000
        }),
    decreases n,
{
    let before = rolling_hour(earned, (n - 1) as nat);
    let at = earned[n - 1].0;
    if n > 1 {
        law_the_rolling_hour_holds_an_hour(earned, (n - 1) as nat);
        assert(earned[n - 2].0 <= at);
        if before.start > 0 {
            assert(earned[before.start - 1].0 <= earned[n - 2].0 - 3_600_000);
        }
    }
    lemma_shed_window(earned, at, before.start, sum(before.xp, earned[n - 1].1), n - 1);
    let start = rolling_hour(earned, n).start;
    assert forall|k: int| start <= k < n implies (#[trigger] earned[k]).0 > at - 3_600_000 by {
        assert(earned[start].0 <= earned[k].0);
    }
    assert forall|k: int| 0 <= k < start implies (#[trigger] earned[k]).0 <= at - 3_600_000 by {
        assert(earned[k].0 <= earned[start - 1].0);
    }
}

/// The best hour has as many points as any window had, and it tells of one: how
/// many reviews it held, and when the first of them was made.
pub proof fn law_the_best_hour_is_not_beaten(earned: Seq<(int, int)>, n: nat, k: nat)
    requires
        1 <= k <= n <= earned.len(),
    ensures
        rolling_hour(earned, n).best.xp >= saturated(rounded(rolling_hour(earned, k).xp)),
        rolling_hour(earned, n).best.xp >= 0,
        rolling_hour(earned, n).best.xp == 0 || exists|j: nat|
            1 <= j <= n && rolling_hour(earned, n).best == (RecordModel {
                xp: saturated(rounded((#[trigger] rolling_hour(earned, j)).xp)),
                reviews: j - rolling_hour(earned, j).start,
                at: earned[rolling_hour(earned, j).start].0,
            }),
    decreases n,
{
    let before = rolling_hour(earned, (n - 1) as nat);
    let after = rolling_hour(earned, n);
    if n > 1 {
        law_the_best_hour_is_not_beaten(
            earned,
            (n - 1) as nat,
            if k < n {
                k
            } else {
                1
            },
        );
    }
    if after.best == before.best {
        if before.best.xp != 0 {
            let j = choose|j: nat|
                1 <= j <= n - 1 && before.best == (RecordModel {
                    xp: saturated(rounded((#[trigger] rolling_hour(earned, j)).xp)),
                    reviews: j - rolling_hour(earned, j).start,
                    at: earned[rolling_hour(earned, j).start].0,
                });
            assert(rolling_hour(earned, j).xp == rolling_hour(earned, j).xp);
        }
    } else {
        assert(after.best == RecordModel {
            xp: saturated(rounded(rolling_hour(earned, n).xp)),
            reviews: n - after.start,
            at: earned[after.start].0,
        });
    }
}

} // verus!
