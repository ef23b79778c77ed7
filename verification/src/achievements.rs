//! Achievements: what is counted over a lifetime, and the marks along the way.

use vstd::prelude::*;
use crate::quests::{units_in, whole_units};
use crate::text::{around, decimal, joined, lemma_decimal_injective, number};

verus! {

/// What an achievement counts.
#[derive(Clone, Copy, Debug, PartialEq, Eq, Structural)]
pub enum Metric {
    Reviews,
    Streak,
    DayReviews,
    Combo,
    Hours,
    Mature,
    NewCards,
    Quests,
    PerfectDays,
    EarlyDays,
    LateDays,
    DaysActive,
    Relearns,
    MaxInterval,
    DistinctCards,
    LongestSession,
    MaxSessions,
    BestMonth,
    WeekendDays,
    Comebacks,
    FreezesUsed,
    FastDays,
    NewYearDays,
    Anniversaries,
    Years,
}

/// An achievement, with an unbounded threshold.
pub struct DefModel {
    pub metric: Metric,
    pub threshold: nat,
    pub title: Seq<char>,
}

/// An achievement: what it counts, from which count on it is unlocked, and
/// what it is called.
#[derive(Clone, Copy)]
pub struct Def {
    pub metric: Metric,
    pub threshold: u64,
    pub title: &'static str,
}

impl View for Def {
    type V = DefModel;

    open spec fn view(&self) -> DefModel {
        DefModel { metric: self.metric, threshold: self.threshold as nat, title: self.title@ }
    }
}

/// The achievements with unbounded thresholds.
pub open spec fn def_views(defs: Seq<Def>) -> Seq<DefModel> {
    defs.map_values(|d: Def| d@)
}

/// An achievement.
pub fn def(metric: Metric, threshold: u64, title: &'static str) -> (res: Def)
    ensures
        res.metric == metric,
        res.threshold == threshold,
        res.title@ == title@,
{
    Def { metric, threshold, title }
}

/// An achievement, with an unbounded threshold.
pub open spec fn mark(metric: Metric, threshold: nat, title: Seq<char>) -> DefModel {
    DefModel { metric, threshold, title }
}

/// The achievements of one kind, in ascending order.
pub open spec fn marks_of(metric: Metric) -> Seq<DefModel> {
    match metric {
        Metric::Reviews => seq![
            mark(metric, 100, "First Hundred"@),
            mark(metric, 1_000, "Thousand Flips"@),
            mark(metric, 5_000, "Card Shark"@),
            mark(metric, 10_000, "Ten Thousand Hours, Sort Of"@),
            mark(metric, 25_000, "Memory Palace"@),
            mark(metric, 50_000, "Living Library"@),
            mark(metric, 100_000, "Mnemosyne"@),
            mark(metric, 250_000, "Quarter Million"@),
            mark(metric, 500_000, "Half a Million"@),
            mark(metric, 1_000_000, "The Millionaire"@),
        ],
        Metric::Streak => seq![
            mark(metric, 3, "Warming Up"@),
            mark(metric, 7, "Full Week"@),
            mark(metric, 14, "Fortnight"@),
            mark(metric, 30, "Month of Mondays"@),
            mark(metric, 60, "Habit Formed"@),
            mark(metric, 100, "Centurion"@),
            mark(metric, 200, "Unbreakable"@),
            mark(metric, 365, "Orbit Complete"@),
            mark(metric, 500, "Five Hundred Sunrises"@),
            mark(metric, 730, "Two Orbits"@),
            mark(metric, 1_000, "Thousand Days"@),
            mark(metric, 1_500, "Unstoppable"@),
            mark(metric, 2_000, "Perennial"@),
        ],
        Metric::DayReviews => seq![
            mark(metric, 100, "Busy Day"@),
            mark(metric, 250, "Marathon"@),
            mark(metric, 500, "Ultramarathon"@),
            mark(metric, 750, "Iron Lung"@),
            mark(metric, 1_000, "Thousand in a Day"@),
            mark(metric, 1_500, "Grinder"@),
            mark(metric, 2_000, "Madness"@),
        ],
        Metric::Combo => seq![
            mark(metric, 50, "In the Zone"@),
            mark(metric, 100, "Flow State"@),
            mark(metric, 250, "Trance"@),
            mark(metric, 500, "Zen"@),
            mark(metric, 1_000, "Nirvana"@),
        ],
        Metric::Hours => seq![
            mark(metric, 10, "Ten Hours In"@),
            mark(metric, 50, "Fifty Hours In"@),
            mark(metric, 100, "Hundred Hours In"@),
            mark(metric, 500, "Scholar"@),
            mark(metric, 1_000, "Thousand Hours"@),
            mark(metric, 2_000, "Two Thousand Hours"@),
            mark(metric, 5_000, "Lifer"@),
        ],
        Metric::Mature => seq![
            mark(metric, 100, "Long Term"@),
            mark(metric, 1_000, "Deep Roots"@),
            mark(metric, 10_000, "Old Growth"@),
            mark(metric, 25_000, "Ancient Forest"@),
            mark(metric, 50_000, "Redwood"@),
            mark(metric, 100_000, "Bedrock"@),
        ],
        Metric::NewCards => seq![
            mark(metric, 100, "Collector"@),
            mark(metric, 1_000, "Curator"@),
            mark(metric, 5_000, "Archivist"@),
            mark(metric, 10_000, "Encyclopedist"@),
            mark(metric, 25_000, "Lexicographer"@),
            mark(metric, 50_000, "Polymath"@),
        ],
        Metric::Quests => seq![
            mark(metric, 10, "Adventurer"@),
            mark(metric, 50, "Quest Hound"@),
            mark(metric, 200, "Completionist"@),
            mark(metric, 500, "Quest Master"@),
            mark(metric, 1_000, "Legend"@),
            mark(metric, 2_500, "Mythic"@),
        ],
        Metric::PerfectDays => seq![
            mark(metric, 7, "Perfect Week"@),
            mark(metric, 30, "Perfect Month"@),
            mark(metric, 100, "Perfectionist"@),
            mark(metric, 365, "Flawless Year"@),
        ],
        Metric::EarlyDays => seq![
            mark(metric, 5, "Early Bird"@),
            mark(metric, 30, "Dawn Patrol"@),
            mark(metric, 100, "Sunrise Scholar"@),
        ],
        Metric::LateDays => seq![
            mark(metric, 5, "Night Owl"@),
            mark(metric, 30, "Nocturnal"@),
            mark(metric, 100, "Creature of the Night"@),
        ],
        Metric::DaysActive => seq![
            mark(metric, 30, "Regular"@),
            mark(metric, 100, "Hundred Days"@),
            mark(metric, 365, "A Year of Days"@),
            mark(metric, 730, "Two Years of Days"@),
            mark(metric, 1_000, "Thousand Days Studied"@),
            mark(metric, 2_000, "Two Thousand Days Studied"@),
        ],
        Metric::Relearns => seq![
            mark(metric, 100, "Second Chance"@),
            mark(metric, 1_000, "Persistence"@),
            mark(metric, 10_000, "Never Give Up"@),
            mark(metric, 50_000, "Sisyphus"@),
        ],
        Metric::MaxInterval => seq![
            mark(metric, 180, "Half-Year Memory"@),
            mark(metric, 365, "Year-Old Memory"@),
            mark(metric, 1_825, "Five-Year Memory"@),
            mark(metric, 3_650, "Decade Memory"@),
        ],
        Metric::DistinctCards => seq![
            mark(metric, 1_000, "Wide Net"@),
            mark(metric, 5_000, "Big Deck"@),
            mark(metric, 20_000, "Vast Library"@),
            mark(metric, 50_000, "Everything Everywhere"@),
        ],
        Metric::LongestSession => seq![
            mark(metric, 60, "Deep Work"@),
            mark(metric, 120, "Two-Hour Sitting"@),
            mark(metric, 240, "Iron Chair"@),
        ],
        Metric::MaxSessions => seq![
            mark(metric, 5, "Snacker"@),
            mark(metric, 10, "Grazer"@),
            mark(metric, 20, "Can't Stop"@),
        ],
        Metric::BestMonth => seq![
            mark(metric, 1_000, "Busy Month"@),
            mark(metric, 3_000, "Big Month"@),
            mark(metric, 10_000, "Monster Month"@),
            mark(metric, 20_000, "Month of Madness"@),
        ],
        Metric::WeekendDays => seq![
            mark(metric, 10, "Weekend Warrior"@),
            mark(metric, 52, "Weekend Regular"@),
            mark(metric, 200, "No Days Off"@),
        ],
        Metric::Comebacks => seq![
            mark(metric, 1, "Comeback"@),
            mark(metric, 3, "Phoenix"@),
        ],
        Metric::FreezesUsed => seq![
            mark(metric, 1, "Saved by the Ice"@),
            mark(metric, 10, "Glacier"@),
            mark(metric, 50, "Ice Age"@),
        ],
        Metric::FastDays => seq![
            mark(metric, 1, "Speed Demon"@),
            mark(metric, 10, "Lightning"@),
            mark(metric, 50, "Quicksilver"@),
        ],
        Metric::NewYearDays => seq![
            mark(metric, 1, "New Year, Same Me"@),
            mark(metric, 3, "Tradition"@),
        ],
        Metric::Anniversaries => seq![
            mark(metric, 1, "Anniversary"@),
            mark(metric, 5, "Old Friends"@),
            mark(metric, 10, "Lifelong"@),
        ],
        Metric::Years => seq![
            mark(metric, 1, "One Year In"@),
            mark(metric, 3, "Three Years In"@),
            mark(metric, 5, "Veteran"@),
            mark(metric, 10, "Decade of Anki"@),
        ],
    }
}

/// All achievements, one kind after the other.
#[verifier::opaque]
pub open spec fn definitions() -> Seq<DefModel> {
    marks_of(Metric::Reviews)
        + marks_of(Metric::Streak)
        + marks_of(Metric::DayReviews)
        + marks_of(Metric::Combo)
        + marks_of(Metric::Hours)
        + marks_of(Metric::Mature)
        + marks_of(Metric::NewCards)
        + marks_of(Metric::Quests)
        + marks_of(Metric::PerfectDays)
        + marks_of(Metric::EarlyDays)
        + marks_of(Metric::LateDays)
        + marks_of(Metric::DaysActive)
        + marks_of(Metric::Relearns)
        + marks_of(Metric::MaxInterval)
        + marks_of(Metric::DistinctCards)
        + marks_of(Metric::LongestSession)
        + marks_of(Metric::MaxSessions)
        + marks_of(Metric::BestMonth)
        + marks_of(Metric::WeekendDays)
        + marks_of(Metric::Comebacks)
        + marks_of(Metric::FreezesUsed)
        + marks_of(Metric::FastDays)
        + marks_of(Metric::NewYearDays)
        + marks_of(Metric::Anniversaries)
        + marks_of(Metric::Years)
}

/// The achievements of one kind.
fn marks(metric: Metric) -> (res: Vec<Def>)
    ensures
        def_views(res@) == marks_of(metric),
{
    let res: Vec<Def> = match metric {
        Metric::Reviews => vec![
            def(metric, 100, "First Hundred"),
            def(metric, 1_000, "Thousand Flips"),
            def(metric, 5_000, "Card Shark"),
            def(metric, 10_000, "Ten Thousand Hours, Sort Of"),
            def(metric, 25_000, "Memory Palace"),
            def(metric, 50_000, "Living Library"),
            def(metric, 100_000, "Mnemosyne"),
            def(metric, 250_000, "Quarter Million"),
            def(metric, 500_000, "Half a Million"),
            def(metric, 1_000_000, "The Millionaire"),
        ],
        Metric::Streak => vec![
            def(metric, 3, "Warming Up"),
            def(metric, 7, "Full Week"),
            def(metric, 14, "Fortnight"),
            def(metric, 30, "Month of Mondays"),
            def(metric, 60, "Habit Formed"),
            def(metric, 100, "Centurion"),
            def(metric, 200, "Unbreakable"),
            def(metric, 365, "Orbit Complete"),
            def(metric, 500, "Five Hundred Sunrises"),
            def(metric, 730, "Two Orbits"),
            def(metric, 1_000, "Thousand Days"),
            def(metric, 1_500, "Unstoppable"),
            def(metric, 2_000, "Perennial"),
        ],
        Metric::DayReviews => vec![
            def(metric, 100, "Busy Day"),
            def(metric, 250, "Marathon"),
            def(metric, 500, "Ultramarathon"),
            def(metric, 750, "Iron Lung"),
            def(metric, 1_000, "Thousand in a Day"),
            def(metric, 1_500, "Grinder"),
            def(metric, 2_000, "Madness"),
        ],
        Metric::Combo => vec![
            def(metric, 50, "In the Zone"),
            def(metric, 100, "Flow State"),
            def(metric, 250, "Trance"),
            def(metric, 500, "Zen"),
            def(metric, 1_000, "Nirvana"),
        ],
        Metric::Hours => vec![
            def(metric, 10, "Ten Hours In"),
            def(metric, 50, "Fifty Hours In"),
            def(metric, 100, "Hundred Hours In"),
            def(metric, 500, "Scholar"),
            def(metric, 1_000, "Thousand Hours"),
            def(metric, 2_000, "Two Thousand Hours"),
            def(metric, 5_000, "Lifer"),
        ],
        Metric::Mature => vec![
            def(metric, 100, "Long Term"),
            def(metric, 1_000, "Deep Roots"),
            def(metric, 10_000, "Old Growth"),
            def(metric, 25_000, "Ancient Forest"),
            def(metric, 50_000, "Redwood"),
            def(metric, 100_000, "Bedrock"),
        ],
        Metric::NewCards => vec![
            def(metric, 100, "Collector"),
            def(metric, 1_000, "Curator"),
            def(metric, 5_000, "Archivist"),
            def(metric, 10_000, "Encyclopedist"),
            def(metric, 25_000, "Lexicographer"),
            def(metric, 50_000, "Polymath"),
        ],
        Metric::Quests => vec![
            def(metric, 10, "Adventurer"),
            def(metric, 50, "Quest Hound"),
            def(metric, 200, "Completionist"),
            def(metric, 500, "Quest Master"),
            def(metric, 1_000, "Legend"),
            def(metric, 2_500, "Mythic"),
        ],
        Metric::PerfectDays => vec![
            def(metric, 7, "Perfect Week"),
            def(metric, 30, "Perfect Month"),
            def(metric, 100, "Perfectionist"),
            def(metric, 365, "Flawless Year"),
        ],
        Metric::EarlyDays => vec![
            def(metric, 5, "Early Bird"),
            def(metric, 30, "Dawn Patrol"),
            def(metric, 100, "Sunrise Scholar"),
        ],
        Metric::LateDays => vec![
            def(metric, 5, "Night Owl"),
            def(metric, 30, "Nocturnal"),
            def(metric, 100, "Creature of the Night"),
        ],
        Metric::DaysActive => vec![
            def(metric, 30, "Regular"),
            def(metric, 100, "Hundred Days"),
            def(metric, 365, "A Year of Days"),
            def(metric, 730, "Two Years of Days"),
            def(metric, 1_000, "Thousand Days Studied"),
            def(metric, 2_000, "Two Thousand Days Studied"),
        ],
        Metric::Relearns => vec![
            def(metric, 100, "Second Chance"),
            def(metric, 1_000, "Persistence"),
            def(metric, 10_000, "Never Give Up"),
            def(metric, 50_000, "Sisyphus"),
        ],
        Metric::MaxInterval => vec![
            def(metric, 180, "Half-Year Memory"),
            def(metric, 365, "Year-Old Memory"),
            def(metric, 1_825, "Five-Year Memory"),
            def(metric, 3_650, "Decade Memory"),
        ],
        Metric::DistinctCards => vec![
            def(metric, 1_000, "Wide Net"),
            def(metric, 5_000, "Big Deck"),
            def(metric, 20_000, "Vast Library"),
            def(metric, 50_000, "Everything Everywhere"),
        ],
        Metric::LongestSession => vec![
            def(metric, 60, "Deep Work"),
            def(metric, 120, "Two-Hour Sitting"),
            def(metric, 240, "Iron Chair"),
        ],
        Metric::MaxSessions => vec![
            def(metric, 5, "Snacker"),
            def(metric, 10, "Grazer"),
            def(metric, 20, "Can't Stop"),
        ],
        Metric::BestMonth => vec![
            def(metric, 1_000, "Busy Month"),
            def(metric, 3_000, "Big Month"),
            def(metric, 10_000, "Monster Month"),
            def(metric, 20_000, "Month of Madness"),
        ],
        Metric::WeekendDays => vec![
            def(metric, 10, "Weekend Warrior"),
            def(metric, 52, "Weekend Regular"),
            def(metric, 200, "No Days Off"),
        ],
        Metric::Comebacks => vec![
            def(metric, 1, "Comeback"),
            def(metric, 3, "Phoenix"),
        ],
        Metric::FreezesUsed => vec![
            def(metric, 1, "Saved by the Ice"),
            def(metric, 10, "Glacier"),
            def(metric, 50, "Ice Age"),
        ],
        Metric::FastDays => vec![
            def(metric, 1, "Speed Demon"),
            def(metric, 10, "Lightning"),
            def(metric, 50, "Quicksilver"),
        ],
        Metric::NewYearDays => vec![
            def(metric, 1, "New Year, Same Me"),
            def(metric, 3, "Tradition"),
        ],
        Metric::Anniversaries => vec![
            def(metric, 1, "Anniversary"),
            def(metric, 5, "Old Friends"),
            def(metric, 10, "Lifelong"),
        ],
        Metric::Years => vec![
            def(metric, 1, "One Year In"),
            def(metric, 3, "Three Years In"),
            def(metric, 5, "Veteran"),
            def(metric, 10, "Decade of Anki"),
        ],
    };
    assert(def_views(res@) =~= marks_of(metric));
    res
}

fn extend(defs: &mut Vec<Def>, metric: Metric)
    ensures
        def_views(final(defs)@) == def_views(old(defs)@) + marks_of(metric),
{
    let ghost before = defs@;
    let mut more = marks(metric);
    let ghost added = more@;
    defs.append(&mut more);
    assert(def_views(defs@) =~= def_views(before) + def_views(added));
}

/// All achievements.
pub fn achievements() -> (res: Vec<Def>)
    ensures
        def_views(res@) == definitions(),
        res@.len() == 118,
{
    let mut defs: Vec<Def> = marks(Metric::Reviews);
    extend(&mut defs, Metric::Streak);
    extend(&mut defs, Metric::DayReviews);
    extend(&mut defs, Metric::Combo);
    extend(&mut defs, Metric::Hours);
    extend(&mut defs, Metric::Mature);
    extend(&mut defs, Metric::NewCards);
    extend(&mut defs, Metric::Quests);
    extend(&mut defs, Metric::PerfectDays);
    extend(&mut defs, Metric::EarlyDays);
    extend(&mut defs, Metric::LateDays);
    extend(&mut defs, Metric::DaysActive);
    extend(&mut defs, Metric::Relearns);
    extend(&mut defs, Metric::MaxInterval);
    extend(&mut defs, Metric::DistinctCards);
    extend(&mut defs, Metric::LongestSession);
    extend(&mut defs, Metric::MaxSessions);
    extend(&mut defs, Metric::BestMonth);
    extend(&mut defs, Metric::WeekendDays);
    extend(&mut defs, Metric::Comebacks);
    extend(&mut defs, Metric::FreezesUsed);
    extend(&mut defs, Metric::FastDays);
    extend(&mut defs, Metric::NewYearDays);
    extend(&mut defs, Metric::Anniversaries);
    extend(&mut defs, Metric::Years);
    proof {
        reveal(definitions);
        lemma_definitions();
        assert(def_views(defs@).len() == defs@.len());
    }
    defs
}

/// How many achievements there are.
pub proof fn lemma_definitions()
    ensures
        definitions().len() == 118,
{
    reveal(definitions);
}

/// What has been counted over a lifetime, in unbounded numbers.
pub struct TotalsModel {
    pub reviews: nat,
    pub best_streak: nat,
    pub best_day: nat,
    pub best_combo: nat,
    pub time_ms: int,
    pub mature: nat,
    pub new_cards: nat,
    pub quests: nat,
    pub perfect_days: nat,
    pub early_days: nat,
    pub late_days: nat,
    pub days_active: nat,
    pub relearns: nat,
    pub max_ivl: nat,
    pub distinct_cards: nat,
    pub longest_session_ms: int,
    pub max_sessions: nat,
    pub best_month: nat,
    pub weekend_days: nat,
    pub comebacks: nat,
    pub freezes_used: nat,
    pub fast_days: nat,
    pub new_year_days: nat,
    pub anniversaries: nat,
    pub years: nat,
}

/// What has been counted over a lifetime.
#[derive(Clone, Copy)]
pub struct Totals {
    pub reviews: u64,
    pub best_streak: u64,
    pub best_day: u64,
    pub best_combo: u64,
    pub time_ms: i64,
    pub mature: u64,
    pub new_cards: u64,
    pub quests: u64,
    pub perfect_days: u64,
    pub early_days: u64,
    pub late_days: u64,
    pub days_active: u64,
    pub relearns: u64,
    pub max_ivl: u64,
    pub distinct_cards: u64,
    pub longest_session_ms: i64,
    pub max_sessions: u64,
    pub best_month: u64,
    pub weekend_days: u64,
    pub comebacks: u64,
    pub freezes_used: u64,
    pub fast_days: u64,
    pub new_year_days: u64,
    pub anniversaries: u64,
    pub years: u64,
}

impl View for Totals {
    type V = TotalsModel;

    open spec fn view(&self) -> TotalsModel {
        TotalsModel {
            reviews: self.reviews as nat,
            best_streak: self.best_streak as nat,
            best_day: self.best_day as nat,
            best_combo: self.best_combo as nat,
            time_ms: self.time_ms as int,
            mature: self.mature as nat,
            new_cards: self.new_cards as nat,
            quests: self.quests as nat,
            perfect_days: self.perfect_days as nat,
            early_days: self.early_days as nat,
            late_days: self.late_days as nat,
            days_active: self.days_active as nat,
            relearns: self.relearns as nat,
            max_ivl: self.max_ivl as nat,
            distinct_cards: self.distinct_cards as nat,
            longest_session_ms: self.longest_session_ms as int,
            max_sessions: self.max_sessions as nat,
            best_month: self.best_month as nat,
            weekend_days: self.weekend_days as nat,
            comebacks: self.comebacks as nat,
            freezes_used: self.freezes_used as nat,
            fast_days: self.fast_days as nat,
            new_year_days: self.new_year_days as nat,
            anniversaries: self.anniversaries as nat,
            years: self.years as nat,
        }
    }
}

/// Nothing has been counted.
pub open spec fn no_totals() -> TotalsModel {
    TotalsModel {
        reviews: 0,
        best_streak: 0,
        best_day: 0,
        best_combo: 0,
        time_ms: 0,
        mature: 0,
        new_cards: 0,
        quests: 0,
        perfect_days: 0,
        early_days: 0,
        late_days: 0,
        days_active: 0,
        relearns: 0,
        max_ivl: 0,
        distinct_cards: 0,
        longest_session_ms: 0,
        max_sessions: 0,
        best_month: 0,
        weekend_days: 0,
        comebacks: 0,
        freezes_used: 0,
        fast_days: 0,
        new_year_days: 0,
        anniversaries: 0,
        years: 0,
    }
}

impl Default for Totals {
    fn default() -> (res: Self)
        ensures
            res@ == no_totals(),
    {
        Totals {
            reviews: 0,
            best_streak: 0,
            best_day: 0,
            best_combo: 0,
            time_ms: 0,
            mature: 0,
            new_cards: 0,
            quests: 0,
            perfect_days: 0,
            early_days: 0,
            late_days: 0,
            days_active: 0,
            relearns: 0,
            max_ivl: 0,
            distinct_cards: 0,
            longest_session_ms: 0,
            max_sessions: 0,
            best_month: 0,
            weekend_days: 0,
            comebacks: 0,
            freezes_used: 0,
            fast_days: 0,
            new_year_days: 0,
            anniversaries: 0,
            years: 0,
        }
    }
}

/// How far a lifetime got with what an achievement counts.
pub open spec fn value_of(t: TotalsModel, metric: Metric) -> int {
    match metric {
        Metric::Reviews => t.reviews as int,
        Metric::Streak => t.best_streak as int,
        Metric::DayReviews => t.best_day as int,
        Metric::Combo => t.best_combo as int,
        Metric::Hours => units_in(t.time_ms, 3_600_000),
        Metric::Mature => t.mature as int,
        Metric::NewCards => t.new_cards as int,
        Metric::Quests => t.quests as int,
        Metric::PerfectDays => t.perfect_days as int,
        Metric::EarlyDays => t.early_days as int,
        Metric::LateDays => t.late_days as int,
        Metric::DaysActive => t.days_active as int,
        Metric::Relearns => t.relearns as int,
        Metric::MaxInterval => t.max_ivl as int,
        Metric::DistinctCards => t.distinct_cards as int,
        Metric::LongestSession => units_in(t.longest_session_ms, 60_000),
        Metric::MaxSessions => t.max_sessions as int,
        Metric::BestMonth => t.best_month as int,
        Metric::WeekendDays => t.weekend_days as int,
        Metric::Comebacks => t.comebacks as int,
        Metric::FreezesUsed => t.freezes_used as int,
        Metric::FastDays => t.fast_days as int,
        Metric::NewYearDays => t.new_year_days as int,
        Metric::Anniversaries => t.anniversaries as int,
        Metric::Years => t.years as int,
    }
}

impl Totals {
    /// How far a lifetime got with what an achievement counts.
    pub fn value(&self, metric: Metric) -> (res: u64)
        ensures
            res == value_of(self@, metric),
    {
        match metric {
            Metric::Reviews => self.reviews,
            Metric::Streak => self.best_streak,
            Metric::DayReviews => self.best_day,
            Metric::Combo => self.best_combo,
            Metric::Hours => whole_units(self.time_ms, 3_600_000),
            Metric::Mature => self.mature,
            Metric::NewCards => self.new_cards,
            Metric::Quests => self.quests,
            Metric::PerfectDays => self.perfect_days,
            Metric::EarlyDays => self.early_days,
            Metric::LateDays => self.late_days,
            Metric::DaysActive => self.days_active,
            Metric::Relearns => self.relearns,
            Metric::MaxInterval => self.max_ivl,
            Metric::DistinctCards => self.distinct_cards,
            Metric::LongestSession => whole_units(self.longest_session_ms, 60_000),
            Metric::MaxSessions => self.max_sessions,
            Metric::BestMonth => self.best_month,
            Metric::WeekendDays => self.weekend_days,
            Metric::Comebacks => self.comebacks,
            Metric::FreezesUsed => self.freezes_used,
            Metric::FastDays => self.fast_days,
            Metric::NewYearDays => self.new_year_days,
            Metric::Anniversaries => self.anniversaries,
            Metric::Years => self.years,
        }
    }
}

/// What an achievement asks for.
pub open spec fn description_of(metric: Metric, n: nat) -> Seq<char> {
    match metric {
        Metric::Reviews => "Review "@ + decimal(n) + " cards in total"@,
        Metric::Streak => "Reach a "@ + decimal(n) + " day streak"@,
        Metric::DayReviews => "Review "@ + decimal(n) + " cards in one day"@,
        Metric::Combo => "Reach a "@ + decimal(n) + " card combo"@,
        Metric::Hours => "Study for "@ + decimal(n) + " hours in total"@,
        Metric::Mature => "Review "@ + decimal(n) + " mature cards"@,
        Metric::NewCards => "Learn "@ + decimal(n) + " new cards"@,
        Metric::Quests => "Complete "@ + decimal(n) + " quests"@,
        Metric::PerfectDays => "Complete every quest on "@ + decimal(n) + " days"@,
        Metric::EarlyDays => "Study before 7am on "@ + decimal(n) + " days"@,
        Metric::LateDays => "Study after 11pm on "@ + decimal(n) + " days"@,
        Metric::DaysActive => "Study on "@ + decimal(n) + " different days"@,
        Metric::Relearns => "Relearn "@ + decimal(n) + " forgotten cards"@,
        Metric::MaxInterval => "Recall a card last seen "@ + decimal(n) + " days before"@,
        Metric::DistinctCards => "Review "@ + decimal(n) + " different cards"@,
        Metric::LongestSession => "Study "@ + decimal(n) + " minutes in one sitting"@,
        Metric::MaxSessions => "Study in "@ + decimal(n) + " separate sessions in one day"@,
        Metric::BestMonth => "Review "@ + decimal(n) + " cards in one calendar month"@,
        Metric::WeekendDays => "Study on "@ + decimal(n) + " Saturdays or Sundays"@,
        Metric::Comebacks => if n == 1 {
            "Come back after a month away"@
        } else {
            "Come back after a month away "@ + decimal(n) + " times"@
        },
        Metric::FreezesUsed => "Have a streak freeze save you "@ + decimal(n) + " times"@,
        Metric::FastDays => "Review 100+ cards in a day averaging under 5 seconds, "@ + decimal(n) + " times"@,
        Metric::NewYearDays => "Study on New Year's Day "@ + decimal(n) + " times"@,
        Metric::Anniversaries => "Study on the anniversary of your first review "@ + decimal(n) + " times"@,
        Metric::Years => "Keep going for "@ + decimal(n) + " years since your first review"@,
    }
}

/// What an achievement asks for.
pub fn describe(metric: Metric, n: u64) -> (res: String)
    ensures
        res@ == description_of(metric, n as nat),
{
    match metric {
        Metric::Reviews => around("Review ", n, " cards in total"),
        Metric::Streak => around("Reach a ", n, " day streak"),
        Metric::DayReviews => around("Review ", n, " cards in one day"),
        Metric::Combo => around("Reach a ", n, " card combo"),
        Metric::Hours => around("Study for ", n, " hours in total"),
        Metric::Mature => around("Review ", n, " mature cards"),
        Metric::NewCards => around("Learn ", n, " new cards"),
        Metric::Quests => around("Complete ", n, " quests"),
        Metric::PerfectDays => around("Complete every quest on ", n, " days"),
        Metric::EarlyDays => around("Study before 7am on ", n, " days"),
        Metric::LateDays => around("Study after 11pm on ", n, " days"),
        Metric::DaysActive => around("Study on ", n, " different days"),
        Metric::Relearns => around("Relearn ", n, " forgotten cards"),
        Metric::MaxInterval => around("Recall a card last seen ", n, " days before"),
        Metric::DistinctCards => around("Review ", n, " different cards"),
        Metric::LongestSession => around("Study ", n, " minutes in one sitting"),
        Metric::MaxSessions => around("Study in ", n, " separate sessions in one day"),
        Metric::BestMonth => around("Review ", n, " cards in one calendar month"),
        Metric::WeekendDays => around("Study on ", n, " Saturdays or Sundays"),
        Metric::Comebacks => if n == 1 {
            "Come back after a month away".to_owned()
        } else {
            around("Come back after a month away ", n, " times")
        },
        Metric::FreezesUsed => around("Have a streak freeze save you ", n, " times"),
        Metric::FastDays => around("Review 100+ cards in a day averaging under 5 seconds, ", n, " times"),
        Metric::NewYearDays => around("Study on New Year's Day ", n, " times"),
        Metric::Anniversaries => around("Study on the anniversary of your first review ", n, " times"),
        Metric::Years => around("Keep going for ", n, " years since your first review"),
    }
}

/// The name of what an achievement counts.
pub open spec fn metric_name(metric: Metric) -> Seq<char> {
    match metric {
        Metric::Reviews => "reviews"@,
        Metric::Streak => "streak"@,
        Metric::DayReviews => "dayreviews"@,
        Metric::Combo => "combo"@,
        Metric::Hours => "hours"@,
        Metric::Mature => "mature"@,
        Metric::NewCards => "newcards"@,
        Metric::Quests => "quests"@,
        Metric::PerfectDays => "perfectdays"@,
        Metric::EarlyDays => "earlydays"@,
        Metric::LateDays => "latedays"@,
        Metric::DaysActive => "daysactive"@,
        Metric::Relearns => "relearns"@,
        Metric::MaxInterval => "maxinterval"@,
        Metric::DistinctCards => "distinctcards"@,
        Metric::LongestSession => "longestsession"@,
        Metric::MaxSessions => "maxsessions"@,
        Metric::BestMonth => "bestmonth"@,
        Metric::WeekendDays => "weekenddays"@,
        Metric::Comebacks => "comebacks"@,
        Metric::FreezesUsed => "freezesused"@,
        Metric::FastDays => "fastdays"@,
        Metric::NewYearDays => "newyeardays"@,
        Metric::Anniversaries => "anniversaries"@,
        Metric::Years => "years"@,
    }
}

/// The name of an achievement: what it counts and from where on.
pub open spec fn id_of(metric: Metric, threshold: nat) -> Seq<char> {
    metric_name(metric) + "-"@ + decimal(threshold)
}

/// The name of an achievement.
pub fn achievement_id(metric: Metric, threshold: u64) -> (res: String)
    ensures
        res@ == id_of(metric, threshold as nat),
{
    let name = match metric {
        Metric::Reviews => "reviews",
        Metric::Streak => "streak",
        Metric::DayReviews => "dayreviews",
        Metric::Combo => "combo",
        Metric::Hours => "hours",
        Metric::Mature => "mature",
        Metric::NewCards => "newcards",
        Metric::Quests => "quests",
        Metric::PerfectDays => "perfectdays",
        Metric::EarlyDays => "earlydays",
        Metric::LateDays => "latedays",
        Metric::DaysActive => "daysactive",
        Metric::Relearns => "relearns",
        Metric::MaxInterval => "maxinterval",
        Metric::DistinctCards => "distinctcards",
        Metric::LongestSession => "longestsession",
        Metric::MaxSessions => "maxsessions",
        Metric::BestMonth => "bestmonth",
        Metric::WeekendDays => "weekenddays",
        Metric::Comebacks => "comebacks",
        Metric::FreezesUsed => "freezesused",
        Metric::FastDays => "fastdays",
        Metric::NewYearDays => "newyeardays",
        Metric::Anniversaries => "anniversaries",
        Metric::Years => "years",
    };
    let mut s = joined(name, "-");
    let n = number(threshold);
    s.append(n.as_str());
    s
}

/// How many achievements count the same and are reached at a threshold.
pub open spec fn tier(defs: Seq<DefModel>, metric: Metric, threshold: nat) -> nat
    decreases defs.len(),
{
    if defs.len() == 0 {
        0
    } else {
        let d = defs.last();
        tier(defs.drop_last(), metric, threshold) + if d.metric == metric && d.threshold <= threshold {
            1nat
        } else {
            0
        }
    }
}

/// The XP of an achievement: a hundred for each mark of its kind so far.
pub open spec fn reward_of(metric: Metric, threshold: nat) -> nat {
    100 * tier(definitions(), metric, threshold)
}

/// No more achievements are reached than there are.
pub proof fn lemma_tier_bound(defs: Seq<DefModel>, metric: Metric, threshold: nat)
    ensures
        tier(defs, metric, threshold) <= defs.len(),
    decreases defs.len(),
{
    if defs.len() > 0 {
        lemma_tier_bound(defs.drop_last(), metric, threshold);
    }
}

/// The XP of an achievement, told from all of them.
pub fn reward(defs: &Vec<Def>, metric: Metric, threshold: u64) -> (res: u64)
    requires
        def_views(defs@) == definitions(),
    ensures
        res == reward_of(metric, threshold as nat),
        res <= 100 * 118,
{
    let ghost all = def_views(defs@);
    let mut n: u64 = 0;
    let mut i: usize = 0;
    proof {
        lemma_definitions();
        assert(all.len() == defs@.len());
        assert(all.take(0) =~= Seq::<DefModel>::empty());
    }
    while i < defs.len()
        invariant
            all == def_views(defs@),
            defs@.len() == 118,
            i <= defs@.len(),
            n <= i,
            n == tier(all.take(i as int), metric, threshold as nat),
        decreases defs@.len() - i,
    {
        proof {
            assert(all.take(i + 1).drop_last() =~= all.take(i as int));
            assert(all.take(i + 1).last() == defs@[i as int]@);
        }
        if defs[i].metric == metric && defs[i].threshold <= threshold {
            n = n + 1;
        }
        i = i + 1;
    }
    assert(all.take(i as int) =~= all);
    100 * n
}

/// The XP of an achievement.
pub fn achievement_xp(metric: Metric, threshold: u64) -> (res: u64)
    ensures
        res == reward_of(metric, threshold as nat),
{
    reward(&achievements(), metric, threshold)
}

/// The place of a kind among all kinds.
spec fn place_of(metric: Metric) -> int {
    match metric {
        Metric::Reviews => 0,
        Metric::Streak => 1,
        Metric::DayReviews => 2,
        Metric::Combo => 3,
        Metric::Hours => 4,
        Metric::Mature => 5,
        Metric::NewCards => 6,
        Metric::Quests => 7,
        Metric::PerfectDays => 8,
        Metric::EarlyDays => 9,
        Metric::LateDays => 10,
        Metric::DaysActive => 11,
        Metric::Relearns => 12,
        Metric::MaxInterval => 13,
        Metric::DistinctCards => 14,
        Metric::LongestSession => 15,
        Metric::MaxSessions => 16,
        Metric::BestMonth => 17,
        Metric::WeekendDays => 18,
        Metric::Comebacks => 19,
        Metric::FreezesUsed => 20,
        Metric::FastDays => 21,
        Metric::NewYearDays => 22,
        Metric::Anniversaries => 23,
        Metric::Years => 24,
    }
}

/// Whether achievements come kind after kind, and those of a kind by their
/// thresholds, up to a kind.
spec fn in_kinds(defs: Seq<DefModel>, last: int) -> bool {
    &&& forall|i: int, j: int|
        0 <= i < j < defs.len() ==> place_of((#[trigger] defs[i]).metric) < place_of((#[trigger] defs[j]).metric) || (
        defs[i].metric == defs[j].metric && defs[i].threshold < defs[j].threshold)
    &&& forall|i: int| 0 <= i < defs.len() ==> place_of((#[trigger] defs[i]).metric) <= last
}

proof fn lemma_marks(metric: Metric)
    ensures
        forall|i: int| 0 <= i < marks_of(metric).len() ==> (#[trigger] marks_of(metric)[i]).metric == metric,
        forall|i: int, j: int|
            0 <= i < j < marks_of(metric).len() ==> (#[trigger] marks_of(metric)[i]).threshold < (#[trigger] marks_of(
                metric,
            )[j]).threshold,
        in_kinds(marks_of(metric), place_of(metric)),
{
}

proof fn lemma_more_marks(defs: Seq<DefModel>, metric: Metric)
    requires
        in_kinds(defs, place_of(metric) - 1),
    ensures
        in_kinds(defs + marks_of(metric), place_of(metric)),
{
    let more = marks_of(metric);
    let all = defs + more;
    let n = defs.len() as int;
    lemma_marks(metric);
    assert forall|i: int, j: int| 0 <= i < j < all.len() implies place_of((#[trigger] all[i]).metric) < place_of(
        (#[trigger] all[j]).metric,
    ) || (all[i].metric == all[j].metric && all[i].threshold < all[j].threshold) by {
        if j < n {
            assert(all[i] == defs[i] && all[j] == defs[j]);
        } else if i < n {
            assert(all[i] == defs[i] && all[j] == more[j - n]);
        } else {
            assert(all[i] == more[i - n] && all[j] == more[j - n]);
        }
    }
    assert forall|i: int| 0 <= i < all.len() implies place_of((#[trigger] all[i]).metric) <= place_of(metric) by {
        if i < n {
            assert(all[i] == defs[i]);
        } else {
            assert(all[i] == more[i - n]);
        }
    }
}

proof fn lemma_definitions_in_kinds()
    ensures
        in_kinds(definitions(), 24),
{
    reveal(definitions);
    let a0 = marks_of(Metric::Reviews);
    lemma_marks(Metric::Reviews);
    let a1 = a0 + marks_of(Metric::Streak);
    lemma_more_marks(a0, Metric::Streak);
    let a2 = a1 + marks_of(Metric::DayReviews);
    lemma_more_marks(a1, Metric::DayReviews);
    let a3 = a2 + marks_of(Metric::Combo);
    lemma_more_marks(a2, Metric::Combo);
    let a4 = a3 + marks_of(Metric::Hours);
    lemma_more_marks(a3, Metric::Hours);
    let a5 = a4 + marks_of(Metric::Mature);
    lemma_more_marks(a4, Metric::Mature);
    let a6 = a5 + marks_of(Metric::NewCards);
    lemma_more_marks(a5, Metric::NewCards);
    let a7 = a6 + marks_of(Metric::Quests);
    lemma_more_marks(a6, Metric::Quests);
    let a8 = a7 + marks_of(Metric::PerfectDays);
    lemma_more_marks(a7, Metric::PerfectDays);
    let a9 = a8 + marks_of(Metric::EarlyDays);
    lemma_more_marks(a8, Metric::EarlyDays);
    let a10 = a9 + marks_of(Metric::LateDays);
    lemma_more_marks(a9, Metric::LateDays);
    let a11 = a10 + marks_of(Metric::DaysActive);
    lemma_more_marks(a10, Metric::DaysActive);
    let a12 = a11 + marks_of(Metric::Relearns);
    lemma_more_marks(a11, Metric::Relearns);
    let a13 = a12 + marks_of(Metric::MaxInterval);
    lemma_more_marks(a12, Metric::MaxInterval);
    let a14 = a13 + marks_of(Metric::DistinctCards);
    lemma_more_marks(a13, Metric::DistinctCards);
    let a15 = a14 + marks_of(Metric::LongestSession);
    lemma_more_marks(a14, Metric::LongestSession);
    let a16 = a15 + marks_of(Metric::MaxSessions);
    lemma_more_marks(a15, Metric::MaxSessions);
    let a17 = a16 + marks_of(Metric::BestMonth);
    lemma_more_marks(a16, Metric::BestMonth);
    let a18 = a17 + marks_of(Metric::WeekendDays);
    lemma_more_marks(a17, Metric::WeekendDays);
    let a19 = a18 + marks_of(Metric::Comebacks);
    lemma_more_marks(a18, Metric::Comebacks);
    let a20 = a19 + marks_of(Metric::FreezesUsed);
    lemma_more_marks(a19, Metric::FreezesUsed);
    let a21 = a20 + marks_of(Metric::FastDays);
    lemma_more_marks(a20, Metric::FastDays);
    let a22 = a21 + marks_of(Metric::NewYearDays);
    lemma_more_marks(a21, Metric::NewYearDays);
    let a23 = a22 + marks_of(Metric::Anniversaries);
    lemma_more_marks(a22, Metric::Anniversaries);
    let a24 = a23 + marks_of(Metric::Years);
    lemma_more_marks(a23, Metric::Years);
}

/// What tells the name of a kind from the others: its length and two letters.
spec fn shape_of(metric: Metric) -> (nat, char, char) {
    match metric {
        Metric::Reviews => (7, 'r', 'e'),
        Metric::Streak => (6, 's', 'a'),
        Metric::DayReviews => (10, 'd', 'e'),
        Metric::Combo => (5, 'c', 'o'),
        Metric::Hours => (5, 'h', 's'),
        Metric::Mature => (6, 'm', 'r'),
        Metric::NewCards => (8, 'n', 'a'),
        Metric::Quests => (6, 'q', 't'),
        Metric::PerfectDays => (11, 'p', 'e'),
        Metric::EarlyDays => (9, 'e', 'y'),
        Metric::LateDays => (8, 'l', 'd'),
        Metric::DaysActive => (10, 'd', 'a'),
        Metric::Relearns => (8, 'r', 'a'),
        Metric::MaxInterval => (11, 'm', 'n'),
        Metric::DistinctCards => (13, 'd', 'i'),
        Metric::LongestSession => (14, 'l', 'e'),
        Metric::MaxSessions => (11, 'm', 'e'),
        Metric::BestMonth => (9, 'b', 'm'),
        Metric::WeekendDays => (11, 'w', 'e'),
        Metric::Comebacks => (9, 'c', 'b'),
        Metric::FreezesUsed => (11, 'f', 'z'),
        Metric::FastDays => (8, 'f', 'd'),
        Metric::NewYearDays => (11, 'n', 'e'),
        Metric::Anniversaries => (13, 'a', 'v'),
        Metric::Years => (5, 'y', 's'),
    }
}

proof fn lemma_name(metric: Metric)
    ensures
        metric_name(metric).len() == shape_of(metric).0 >= 5,
        metric_name(metric)[0] == shape_of(metric).1,
        metric_name(metric)[4] == shape_of(metric).2,
        forall|i: int| 0 <= i < metric_name(metric).len() ==> #[trigger] metric_name(metric)[i] != '-',
{
    match metric {
        Metric::Reviews => reveal_strlit("reviews"),
        Metric::Streak => reveal_strlit("streak"),
        Metric::DayReviews => reveal_strlit("dayreviews"),
        Metric::Combo => reveal_strlit("combo"),
        Metric::Hours => reveal_strlit("hours"),
        Metric::Mature => reveal_strlit("mature"),
        Metric::NewCards => reveal_strlit("newcards"),
        Metric::Quests => reveal_strlit("quests"),
        Metric::PerfectDays => reveal_strlit("perfectdays"),
        Metric::EarlyDays => reveal_strlit("earlydays"),
        Metric::LateDays => reveal_strlit("latedays"),
        Metric::DaysActive => reveal_strlit("daysactive"),
        Metric::Relearns => reveal_strlit("relearns"),
        Metric::MaxInterval => reveal_strlit("maxinterval"),
        Metric::DistinctCards => reveal_strlit("distinctcards"),
        Metric::LongestSession => reveal_strlit("longestsession"),
        Metric::MaxSessions => reveal_strlit("maxsessions"),
        Metric::BestMonth => reveal_strlit("bestmonth"),
        Metric::WeekendDays => reveal_strlit("weekenddays"),
        Metric::Comebacks => reveal_strlit("comebacks"),
        Metric::FreezesUsed => reveal_strlit("freezesused"),
        Metric::FastDays => reveal_strlit("fastdays"),
        Metric::NewYearDays => reveal_strlit("newyeardays"),
        Metric::Anniversaries => reveal_strlit("anniversaries"),
        Metric::Years => reveal_strlit("years"),
    }
}

proof fn lemma_shapes_differ(a: Metric, b: Metric)
    requires
        shape_of(a) == shape_of(b),
    ensures
        a == b,
{
}

/// The name of an achievement tells what it counts and from where on.
pub proof fn law_names_tell_achievements_apart(a: Metric, s: nat, b: Metric, t: nat)
    requires
        id_of(a, s) == id_of(b, t),
    ensures
        a == b,
        s == t,
{
    let x = metric_name(a);
    let y = metric_name(b);
    reveal_strlit("-");
    lemma_name(a);
    lemma_name(b);
    let id = id_of(a, s);
    assert(id[x.len() as int] == '-');
    assert(id[y.len() as int] == '-');
    if x.len() < y.len() {
        assert(id[x.len() as int] == y[x.len() as int]);
    }
    if y.len() < x.len() {
        assert(id[y.len() as int] == x[y.len() as int]);
    }
    assert(id[0] == x[0] && id[0] == y[0]);
    assert(id[4] == x[4] && id[4] == y[4]);
    lemma_shapes_differ(a, b);
    assert(id.skip(x.len() as int + 1) =~= decimal(s));
    assert(id_of(b, t).skip(x.len() as int + 1) =~= decimal(t));
    lemma_decimal_injective(s, t);
}

/// No two achievements have the same name.
pub proof fn law_achievement_names_are_unique(i: int, j: int)
    requires
        0 <= i < j < definitions().len(),
    ensures
        id_of(definitions()[i].metric, definitions()[i].threshold) != id_of(
            definitions()[j].metric,
            definitions()[j].threshold,
        ),
{
    let x = definitions()[i];
    let y = definitions()[j];
    lemma_definitions_in_kinds();
    if id_of(x.metric, x.threshold) == id_of(y.metric, y.threshold) {
        law_names_tell_achievements_apart(x.metric, x.threshold, y.metric, y.threshold);
    }
}

spec fn all_above_zero(defs: Seq<DefModel>) -> bool {
    forall|i: int| 0 <= i < defs.len() ==> (#[trigger] defs[i]).threshold >= 1
}

proof fn lemma_above_zero(defs: Seq<DefModel>, metric: Metric)
    requires
        all_above_zero(defs),
    ensures
        all_above_zero(defs + marks_of(metric)),
{
    let more = marks_of(metric);
    assert(all_above_zero(more));
    assert forall|i: int| 0 <= i < (defs + more).len() implies (#[trigger] (defs + more)[i]).threshold >= 1 by {
        if i < defs.len() {
            assert((defs + more)[i] == defs[i]);
        } else {
            assert((defs + more)[i] == more[i - defs.len()]);
        }
    }
}

/// No achievement is reached by doing nothing.
pub proof fn law_every_achievement_asks_for_something(i: int)
    requires
        0 <= i < definitions().len(),
    ensures
        definitions()[i].threshold >= 1,
{
    reveal(definitions);
    let a0 = marks_of(Metric::Reviews);
    assert(Seq::<DefModel>::empty() + a0 =~= a0);
    lemma_above_zero(Seq::empty(), Metric::Reviews);
    let a1 = a0 + marks_of(Metric::Streak);
    lemma_above_zero(a0, Metric::Streak);
    let a2 = a1 + marks_of(Metric::DayReviews);
    lemma_above_zero(a1, Metric::DayReviews);
    let a3 = a2 + marks_of(Metric::Combo);
    lemma_above_zero(a2, Metric::Combo);
    let a4 = a3 + marks_of(Metric::Hours);
    lemma_above_zero(a3, Metric::Hours);
    let a5 = a4 + marks_of(Metric::Mature);
    lemma_above_zero(a4, Metric::Mature);
    let a6 = a5 + marks_of(Metric::NewCards);
    lemma_above_zero(a5, Metric::NewCards);
    let a7 = a6 + marks_of(Metric::Quests);
    lemma_above_zero(a6, Metric::Quests);
    let a8 = a7 + marks_of(Metric::PerfectDays);
    lemma_above_zero(a7, Metric::PerfectDays);
    let a9 = a8 + marks_of(Metric::EarlyDays);
    lemma_above_zero(a8, Metric::EarlyDays);
    let a10 = a9 + marks_of(Metric::LateDays);
    lemma_above_zero(a9, Metric::LateDays);
    let a11 = a10 + marks_of(Metric::DaysActive);
    lemma_above_zero(a10, Metric::DaysActive);
    let a12 = a11 + marks_of(Metric::Relearns);
    lemma_above_zero(a11, Metric::Relearns);
    let a13 = a12 + marks_of(Metric::MaxInterval);
    lemma_above_zero(a12, Metric::MaxInterval);
    let a14 = a13 + marks_of(Metric::DistinctCards);
    lemma_above_zero(a13, Metric::DistinctCards);
    let a15 = a14 + marks_of(Metric::LongestSession);
    lemma_above_zero(a14, Metric::LongestSession);
    let a16 = a15 + marks_of(Metric::MaxSessions);
    lemma_above_zero(a15, Metric::MaxSessions);
    let a17 = a16 + marks_of(Metric::BestMonth);
    lemma_above_zero(a16, Metric::BestMonth);
    let a18 = a17 + marks_of(Metric::WeekendDays);
    lemma_above_zero(a17, Metric::WeekendDays);
    let a19 = a18 + marks_of(Metric::Comebacks);
    lemma_above_zero(a18, Metric::Comebacks);
    let a20 = a19 + marks_of(Metric::FreezesUsed);
    lemma_above_zero(a19, Metric::FreezesUsed);
    let a21 = a20 + marks_of(Metric::FastDays);
    lemma_above_zero(a20, Metric::FastDays);
    let a22 = a21 + marks_of(Metric::NewYearDays);
    lemma_above_zero(a21, Metric::NewYearDays);
    let a23 = a22 + marks_of(Metric::Anniversaries);
    lemma_above_zero(a22, Metric::Anniversaries);
    let a24 = a23 + marks_of(Metric::Years);
    lemma_above_zero(a23, Metric::Years);
    assert(all_above_zero(definitions()));
}

proof fn lemma_next_tier(j: nat, i: int)
    requires
        j <= definitions().len(),
        0 <= i < definitions().len() - 1,
        definitions()[i].metric == definitions()[i + 1].metric,
    ensures
        tier(definitions().take(j as int), definitions()[i + 1].metric, definitions()[i + 1].threshold) == tier(
            definitions().take(j as int),
            definitions()[i].metric,
            definitions()[i].threshold,
        ) + if j > i + 1 {
            1nat
        } else {
            0
        },
    decreases j,
{
    if j > 0 {
        lemma_definitions_in_kinds();
        lemma_next_tier((j - 1) as nat, i);
        let defs = definitions();
        assert(defs.take(j as int).drop_last() =~= defs.take(j - 1));
        assert(defs.take(j as int).last() == defs[j - 1]);
        let k = j - 1;
        if k < i {
            assert(place_of(defs[k].metric) < place_of(defs[i].metric) || (defs[k].metric == defs[i].metric
                && defs[k].threshold < defs[i].threshold));
        } else if k > i + 1 {
            assert(place_of(defs[i + 1].metric) < place_of(defs[k].metric) || (defs[k].metric == defs[i + 1].metric
                && defs[i + 1].threshold < defs[k].threshold));
        }
        assert(defs[i].threshold < defs[i + 1].threshold);
    }
}

proof fn lemma_first_tier(j: nat, i: int)
    requires
        j <= definitions().len(),
        0 <= i < definitions().len(),
        i == 0 || definitions()[i - 1].metric != definitions()[i].metric,
    ensures
        tier(definitions().take(j as int), definitions()[i].metric, definitions()[i].threshold) == if j > i {
            1nat
        } else {
            0
        },
    decreases j,
{
    if j > 0 {
        lemma_definitions_in_kinds();
        lemma_first_tier((j - 1) as nat, i);
        let defs = definitions();
        assert(defs.take(j as int).drop_last() =~= defs.take(j - 1));
        assert(defs.take(j as int).last() == defs[j - 1]);
        let k = j - 1;
        if k < i {
            assert(place_of(defs[i - 1].metric) < place_of(defs[i].metric));
            if k < i - 1 {
                assert(place_of(defs[k].metric) <= place_of(defs[i - 1].metric));
            }
        } else if k > i {
            assert(place_of(defs[i].metric) < place_of(defs[k].metric) || (defs[k].metric == defs[i].metric
                && defs[i].threshold < defs[k].threshold));
        }
    }
}

/// The first mark of a kind brings a hundred XP, and each further one a hundred
/// more than the one before.
pub proof fn law_each_mark_brings_a_hundred_more(i: int)
    requires
        0 <= i < definitions().len(),
    ensures
        i == 0 || definitions()[i - 1].metric != definitions()[i].metric ==> reward_of(
            definitions()[i].metric,
            definitions()[i].threshold,
        ) == 100,
        i > 0 && definitions()[i - 1].metric == definitions()[i].metric ==> reward_of(
            definitions()[i].metric,
            definitions()[i].threshold,
        ) == reward_of(definitions()[i - 1].metric, definitions()[i - 1].threshold) + 100 && definitions()[i
            - 1].threshold < definitions()[i].threshold,
{
    let n = definitions().len();
    assert(definitions().take(n as int) =~= definitions());
    if i == 0 || definitions()[i - 1].metric != definitions()[i].metric {
        lemma_first_tier(n, i);
    } else {
        lemma_next_tier(n, i - 1);
        lemma_definitions_in_kinds();
    }
}

/// From where on the achievements of a kind are reached.
pub open spec fn thresholds(metric: Metric) -> Seq<nat> {
    marks_of(metric).map_values(|d: DefModel| d.threshold)
}

/// The marks of each kind: what has to be reached, from the first achievement to the
/// last.
pub proof fn law_the_marks_of_each_kind()
    ensures
        thresholds(Metric::Reviews) == seq![100nat, 1_000, 5_000, 10_000, 25_000, 50_000, 100_000, 250_000, 500_000, 1_000_000],
        thresholds(Metric::Streak) == seq![3nat, 7, 14, 30, 60, 100, 200, 365, 500, 730, 1_000, 1_500, 2_000],
        thresholds(Metric::DayReviews) == seq![100nat, 250, 500, 750, 1_000, 1_500, 2_000],
        thresholds(Metric::Combo) == seq![50nat, 100, 250, 500, 1_000],
        thresholds(Metric::Hours) == seq![10nat, 50, 100, 500, 1_000, 2_000, 5_000],
        thresholds(Metric::Mature) == seq![100nat, 1_000, 10_000, 25_000, 50_000, 100_000],
        thresholds(Metric::NewCards) == seq![100nat, 1_000, 5_000, 10_000, 25_000, 50_000],
        thresholds(Metric::Quests) == seq![10nat, 50, 200, 500, 1_000, 2_500],
        thresholds(Metric::PerfectDays) == seq![7nat, 30, 100, 365],
        thresholds(Metric::EarlyDays) == seq![5nat, 30, 100],
        thresholds(Metric::LateDays) == seq![5nat, 30, 100],
        thresholds(Metric::DaysActive) == seq![30nat, 100, 365, 730, 1_000, 2_000],
        thresholds(Metric::Relearns) == seq![100nat, 1_000, 10_000, 50_000],
        thresholds(Metric::MaxInterval) == seq![180nat, 365, 1_825, 3_650],
        thresholds(Metric::DistinctCards) == seq![1_000nat, 5_000, 20_000, 50_000],
        thresholds(Metric::LongestSession) == seq![60nat, 120, 240],
        thresholds(Metric::MaxSessions) == seq![5nat, 10, 20],
        thresholds(Metric::BestMonth) == seq![1_000nat, 3_000, 10_000, 20_000],
        thresholds(Metric::WeekendDays) == seq![10nat, 52, 200],
        thresholds(Metric::Comebacks) == seq![1nat, 3],
        thresholds(Metric::FreezesUsed) == seq![1nat, 10, 50],
        thresholds(Metric::FastDays) == seq![1nat, 10, 50],
        thresholds(Metric::NewYearDays) == seq![1nat, 3],
        thresholds(Metric::Anniversaries) == seq![1nat, 5, 10],
        thresholds(Metric::Years) == seq![1nat, 3, 5, 10],
{
    assert(thresholds(Metric::Reviews) =~= seq![100nat, 1_000, 5_000, 10_000, 25_000, 50_000, 100_000, 250_000, 500_000, 1_000_000]);
    assert(thresholds(Metric::Streak) =~= seq![3nat, 7, 14, 30, 60, 100, 200, 365, 500, 730, 1_000, 1_500, 2_000]);
    assert(thresholds(Metric::DayReviews) =~= seq![100nat, 250, 500, 750, 1_000, 1_500, 2_000]);
    assert(thresholds(Metric::Combo) =~= seq![50nat, 100, 250, 500, 1_000]);
    assert(thresholds(Metric::Hours) =~= seq![10nat, 50, 100, 500, 1_000, 2_000, 5_000]);
    assert(thresholds(Metric::Mature) =~= seq![100nat, 1_000, 10_000, 25_000, 50_000, 100_000]);
    assert(thresholds(Metric::NewCards) =~= seq![100nat, 1_000, 5_000, 10_000, 25_000, 50_000]);
    assert(thresholds(Metric::Quests) =~= seq![10nat, 50, 200, 500, 1_000, 2_500]);
    assert(thresholds(Metric::PerfectDays) =~= seq![7nat, 30, 100, 365]);
    assert(thresholds(Metric::EarlyDays) =~= seq![5nat, 30, 100]);
    assert(thresholds(Metric::LateDays) =~= seq![5nat, 30, 100]);
    assert(thresholds(Metric::DaysActive) =~= seq![30nat, 100, 365, 730, 1_000, 2_000]);
    assert(thresholds(Metric::Relearns) =~= seq![100nat, 1_000, 10_000, 50_000]);
    assert(thresholds(Metric::MaxInterval) =~= seq![180nat, 365, 1_825, 3_650]);
    assert(thresholds(Metric::DistinctCards) =~= seq![1_000nat, 5_000, 20_000, 50_000]);
    assert(thresholds(Metric::LongestSession) =~= seq![60nat, 120, 240]);
    assert(thresholds(Metric::MaxSessions) =~= seq![5nat, 10, 20]);
    assert(thresholds(Metric::BestMonth) =~= seq![1_000nat, 3_000, 10_000, 20_000]);
    assert(thresholds(Metric::WeekendDays) =~= seq![10nat, 52, 200]);
    assert(thresholds(Metric::Comebacks) =~= seq![1nat, 3]);
    assert(thresholds(Metric::FreezesUsed) =~= seq![1nat, 10, 50]);
    assert(thresholds(Metric::FastDays) =~= seq![1nat, 10, 50]);
    assert(thresholds(Metric::NewYearDays) =~= seq![1nat, 3]);
    assert(thresholds(Metric::Anniversaries) =~= seq![1nat, 5, 10]);
    assert(thresholds(Metric::Years) =~= seq![1nat, 3, 5, 10]);
}

} // verus!
