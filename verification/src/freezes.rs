//! Streak freezes: when a player wants them, and when they are in force.

use vstd::prelude::*;

verus! {

/// How many freezes can be held.
pub const MAX_FREEZES: u32 = 3;

/// Preference changes ordered by time, retaining save order for equal timestamps.
/// Replaying them with reviews keeps later toggles from changing past protection.
#[derive(Clone, Copy, Debug, PartialEq, Eq, Structural)]
pub struct FreezePreference {
    pub at: i64,
    pub enabled: bool,
}

/// What a player has chosen over time.
pub struct FreezePolicy {
    /// First migration time for an existing database; earlier days retain
    /// their old automatic protection. New databases have no legacy period.
    pub legacy_until: Option<i64>,
    pub preferences: Vec<FreezePreference>,
}

impl Default for FreezePolicy {
    fn default() -> (res: Self)
        ensures
            res.legacy_until is None,
            res.preferences@.len() == 0,
    {
        FreezePolicy { legacy_until: None, preferences: Vec::new() }
    }
}

/// Whether freezes are wanted at an instant: what the last change up to it
/// says. Without a change they are not.
pub open spec fn enabled_at(preferences: Seq<FreezePreference>, at: int) -> bool
    decreases preferences.len(),
{
    if preferences.len() == 0 {
        false
    } else if preferences.last().at <= at {
        preferences.last().enabled
    } else {
        enabled_at(preferences.drop_last(), at)
    }
}

/// Whether freezes are wanted at an instant.
pub fn freezes_enabled_at(preferences: &[FreezePreference], at: i64) -> (res: bool)
    ensures
        res == enabled_at(preferences@, at as int),
{
    let mut end: usize = preferences.len();
    assert(preferences@.take(end as int) =~= preferences@);
    while end > 0
        invariant
            end <= preferences@.len(),
            enabled_at(preferences@, at as int) == enabled_at(preferences@.take(end as int), at as int),
        decreases end,
    {
        let change = preferences[end - 1];
        proof {
            assert(preferences@.take(end as int).last() == change);
            assert(preferences@.take(end as int).drop_last() =~= preferences@.take(end - 1));
        }
        if change.at <= at {
            return change.enabled;
        }
        end = end - 1;
    }
    false
}

/// A change that is made later does not say what was wanted before it.
pub proof fn law_later_changes_leave_the_past(preferences: Seq<FreezePreference>, change: FreezePreference, at: int)
    requires
        at < change.at,
    ensures
        enabled_at(preferences.push(change), at) == enabled_at(preferences, at),
{
    assert(preferences.push(change).drop_last() =~= preferences);
}

/// From a change on it is the change that counts, until the next one.
pub proof fn law_a_change_counts_from_its_time_on(preferences: Seq<FreezePreference>, change: FreezePreference, at: int)
    requires
        change.at <= at,
    ensures
        enabled_at(preferences.push(change), at) == change.enabled,
{
}

} // verus!
