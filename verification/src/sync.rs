//! Collections that are synced to this server: which there are, when they are
//! read, and what is taken from them.

use vstd::prelude::*;
use crate::calendar::Clock;
use crate::game::{event_views, Profile};
use crate::quests::Review;
use crate::store::{sound, upserted, Store};
use crate::text::{join, joined, joined_by, texts};
use crate::uploads::{consume_events, consumed};

verus! {

/// An entry of a collection's log: a review, and how it was answered.
#[derive(Clone, Copy, Debug)]
pub struct Entry {
    pub review: Review,
    pub ease: i64,
}

/// The reviews among some entries: those that were answered, and count.
pub open spec fn reviews_among(entries: Seq<Entry>) -> Seq<Review>
    decreases entries.len(),
{
    if entries.len() == 0 {
        Seq::empty()
    } else {
        let before = reviews_among(entries.drop_last());
        let e = entries.last();
        if e.ease > 0 && e.review.kind < 4 {
            before.push(e.review)
        } else {
            before
        }
    }
}

/// The reviews among the entries of a collection's log.
pub fn collection_reviews(entries: &[Entry]) -> (res: Vec<Review>)
    ensures
        res@ == reviews_among(entries@),
{
    let mut res: Vec<Review> = Vec::new();
    let mut i: usize = 0;
    assert(entries@.take(0) =~= Seq::<Entry>::empty());
    while i < entries.len()
        invariant
            i <= entries@.len(),
            res@ == reviews_among(entries@.take(i as int)),
        decreases entries@.len() - i,
    {
        proof {
            assert(entries@.take(i + 1).drop_last() =~= entries@.take(i as int));
        }
        if entries[i].ease > 0 && entries[i].review.kind < 4 {
            res.push(entries[i].review);
        }
        i = i + 1;
    }
    assert(entries@.take(i as int) =~= entries@);
    res
}

/// The clock of a collection, with the usual values for what it does not say.
pub open spec fn clock_in(offset_west_min: Option<i64>, rollover_hour: Option<i64>) -> Clock {
    Clock {
        offset_west_min: match offset_west_min {
            Some(n) => n,
            None => 0,
        },
        rollover_hour: match rollover_hour {
            Some(n) => n,
            None => 4,
        },
    }
}

/// The clock of a collection.
pub fn collection_clock(offset_west_min: Option<i64>, rollover_hour: Option<i64>) -> (res: Clock)
    ensures
        res == clock_in(offset_west_min, rollover_hour),
{
    let usual = Clock::default();
    Clock {
        offset_west_min: match offset_west_min {
            Some(n) => n,
            None => usual.offset_west_min,
        },
        rollover_hour: match rollover_hour {
            Some(n) => n,
            None => usual.rollover_hour,
        },
    }
}

/// Which button answered a review does not matter: entries with the same
/// reviews, answered alike or not, give the same reviews.
pub proof fn law_answers_do_not_matter(a: Seq<Entry>, b: Seq<Entry>)
    requires
        a.len() == b.len(),
        forall|i: int|
            0 <= i < a.len() ==> (#[trigger] a[i]).review == (#[trigger] b[i]).review && (a[i].ease > 0) == (b[i].ease > 0),
    ensures
        reviews_among(a) == reviews_among(b),
    decreases a.len(),
{
    if a.len() > 0 {
        assert(a[a.len() - 1].review == b[b.len() - 1].review);
        assert forall|i: int| 0 <= i < a.len() - 1 implies (#[trigger] a.drop_last()[i]).review == (
        #[trigger] b.drop_last()[i]).review && (a.drop_last()[i].ease > 0) == (b.drop_last()[i].ease > 0) by {
            assert(a[i].review == b[i].review);
        }
        law_answers_do_not_matter(a.drop_last(), b.drop_last());
    }
}

/// When a file was changed last, and how long it is.
#[derive(Clone, Copy, Debug, PartialEq, Eq, Structural)]
pub struct Mark {
    pub seconds: u64,
    pub nanos: u32,
    pub bytes: u64,
}

/// What tells the states of a collection apart: the marks of its file and of
/// the log beside it, as far as they are there.
#[derive(Clone, Copy, Debug, PartialEq, Eq, Structural)]
pub struct Signature {
    pub file: Option<Mark>,
    pub log: Option<Mark>,
}

/// Whether a collection is worth reading: it is there, and not as it was when
/// it was read last.
pub open spec fn is_news(known: Option<Signature>, found: Signature) -> bool {
    found.file is Some && known != Some(found)
}

/// Whether a collection is worth reading.
pub fn worth_reading(known: Option<Signature>, found: Signature) -> (res: bool)
    ensures
        res == is_news(known, found),
{
    match known {
        Some(last) => found.file.is_some() && last != found,
        None => found.file.is_some(),
    }
}

impl Store {
    /// Take in what was read from a collection, unless the collection was not
    /// worth reading or changed while it was read.
    pub fn ingest(
        &mut self,
        user: &str,
        known: Option<Signature>,
        before: Signature,
        after: Signature,
        entries: &[Entry],
        offset_west_min: Option<i64>,
        rollover_hour: Option<i64>,
    ) -> (res: bool)
        requires
            old(self).wf(),
        ensures
            res == (is_news(known, before) && after == before),
            final(self)@ == (if res {
                upserted(
                    old(self)@,
                    user@,
                    reviews_among(entries@),
                    Seq::empty(),
                    clock_in(offset_west_min, rollover_hour),
                )
            } else {
                old(self)@
            }),
            final(self).wf(),
    {
        if !worth_reading(known, before) || after != before {
            return false;
        }
        let reviews = collection_reviews(entries);
        let deleted: Vec<i64> = Vec::new();
        assert(deleted@ =~= Seq::empty());
        self.upsert(user, &reviews, &deleted, collection_clock(offset_west_min, rollover_hour));
        true
    }
}

/// What was found in the folder of the collections, as text.
pub enum LookedModel {
    Unread(Seq<char>),
    NotAFolder,
    NoCollection,
    Collection(Seq<char>),
    NoName(Seq<char>),
    NotAFile(Seq<char>),
    Failed(Seq<char>, Seq<char>),
}

/// What was found in the folder of the collections.
#[derive(Clone, Debug)]
pub enum Looked {
    /// An entry that could not be read, and why.
    Unread(String),
    /// Something else than a folder.
    NotAFolder,
    /// A folder without a collection.
    NoCollection,
    /// The folder of a player, by name.
    Collection(String),
    /// A folder with a collection whose name is not text, as far as it can be
    /// shown.
    NoName(String),
    /// Something else than a file where a collection is looked for, by path.
    NotAFile(String),
    /// A collection that could not be looked at, by path, and why.
    Failed(String, String),
}

impl View for Looked {
    type V = LookedModel;

    open spec fn view(&self) -> LookedModel {
        match self {
            Looked::Unread(why) => LookedModel::Unread(why@),
            Looked::NotAFolder => LookedModel::NotAFolder,
            Looked::NoCollection => LookedModel::NoCollection,
            Looked::Collection(name) => LookedModel::Collection(name@),
            Looked::NoName(name) => LookedModel::NoName(name@),
            Looked::NotAFile(path) => LookedModel::NotAFile(path@),
            Looked::Failed(path, why) => LookedModel::Failed(path@, why@),
        }
    }
}

/// What is wrong with something that was found.
pub open spec fn fault_of(found: LookedModel) -> Option<Seq<char>> {
    match found {
        LookedModel::Unread(why) => Some(why),
        LookedModel::NoName(name) => Some("invalid sync user name: "@ + name),
        LookedModel::NotAFile(path) => Some(path + " is not a collection file"@),
        LookedModel::Failed(path, why) => Some(path + ": "@ + why),
        _ => None,
    }
}

/// The players among what was found.
pub open spec fn players_among(found: Seq<LookedModel>) -> Seq<Seq<char>>
    decreases found.len(),
{
    if found.len() == 0 {
        Seq::empty()
    } else {
        match found.last() {
            LookedModel::Collection(name) => players_among(found.drop_last()).push(name),
            _ => players_among(found.drop_last()),
        }
    }
}

/// What is wrong with what was found.
pub open spec fn faults_among(found: Seq<LookedModel>) -> Seq<Seq<char>>
    decreases found.len(),
{
    if found.len() == 0 {
        Seq::empty()
    } else {
        match fault_of(found.last()) {
            Some(fault) => faults_among(found.drop_last()).push(fault),
            None => faults_among(found.drop_last()),
        }
    }
}

/// Things that were found, as text.
pub open spec fn looked_views(found: Seq<Looked>) -> Seq<LookedModel> {
    found.map_values(|l: Looked| l@)
}

fn fault(found: &Looked) -> (res: Option<String>)
    ensures
        match res {
            Some(text) => fault_of(found@) == Some(text@),
            None => fault_of(found@) is None,
        },
{
    match found {
        Looked::Unread(why) => Some(why.clone()),
        Looked::NoName(name) => Some(joined("invalid sync user name: ", name.as_str())),
        Looked::NotAFile(path) => Some(joined(path.as_str(), " is not a collection file")),
        Looked::Failed(path, why) => {
            let head = joined(path.as_str(), ": ");
            Some(joined(head.as_str(), why.as_str()))
        },
        _ => None,
    }
}

/// The players whose collections are synced, or, where anything is wrong with
/// what was found, all that is.
pub fn sync_users(found: &[Looked]) -> (res: Result<Vec<String>, String>)
    ensures
        match res {
            Ok(users) => faults_among(looked_views(found@)).len() == 0 && texts(users@) == players_among(
                looked_views(found@),
            ),
            Err(why) => faults_among(looked_views(found@)).len() > 0 && why@ == joined_by(
                faults_among(looked_views(found@)),
                "; "@,
            ),
        },
{
    let ghost all = looked_views(found@);
    let mut users: Vec<String> = Vec::new();
    let mut faults: Vec<String> = Vec::new();
    let mut i: usize = 0;
    assert(all.take(0) =~= Seq::<LookedModel>::empty());
    assert(texts(users@) =~= Seq::<Seq<char>>::empty());
    assert(texts(faults@) =~= Seq::<Seq<char>>::empty());
    while i < found.len()
        invariant
            all == looked_views(found@),
            i <= found@.len(),
            texts(users@) == players_among(all.take(i as int)),
            texts(faults@) == faults_among(all.take(i as int)),
        decreases found@.len() - i,
    {
        let ghost users0 = users@;
        let ghost faults0 = faults@;
        proof {
            assert(all.take(i + 1).drop_last() =~= all.take(i as int));
            assert(all.take(i + 1).last() == found@[i as int]@);
        }
        if let Looked::Collection(name) = &found[i] {
            users.push(name.clone());
            assert(texts(users@) =~= texts(users0).push(name@));
        }
        if let Some(text) = fault(&found[i]) {
            let ghost said = text@;
            faults.push(text);
            assert(texts(faults@) =~= texts(faults0).push(said));
        }
        i = i + 1;
    }
    assert(all.take(i as int) =~= all);
    assert(texts(faults@).len() == faults@.len());
    if faults.len() == 0 {
        Ok(users)
    } else {
        Err(join(&faults, "; "))
    }
}

/// What is said of a player whose collection could not be taken in.
pub open spec fn failure_of(user: Seq<char>, why: Seq<char>) -> Seq<char> {
    "ingest for "@ + user + " failed: "@ + why
}

/// What is said of a player whose collection could not be taken in.
pub fn ingest_failure(user: &str, why: &str) -> (res: String)
    ensures
        res@ == failure_of(user@, why@),
{
    let head = joined("ingest for ", user);
    let middle = joined(head.as_str(), " failed: ");
    joined(middle.as_str(), why)
}

/// Whether all collections were taken in, or what stood in the way.
pub fn import_report(failures: &Vec<String>) -> (res: Result<(), String>)
    ensures
        match res {
            Ok(()) => failures@.len() == 0,
            Err(why) => failures@.len() > 0 && why@ == joined_by(texts(failures@), "; "@),
        },
{
    if failures.len() == 0 {
        Ok(())
    } else {
        Err(join(failures, "; "))
    }
}

/// After the first import of a player, what the history has unlocked is not
/// news.
pub fn settle_import(store: &mut Store, user: &str, first_import: bool, profile: Option<&Profile>)
    ensures
        final(store)@ == (match profile {
            Some(p) => if first_import {
                consumed(old(store)@, user@, event_views(p.events@))
            } else {
                old(store)@
            },
            None => old(store)@,
        }),
        sound(old(store)@) ==> final(store).wf(),
{
    if let Some(p) = profile {
        if first_import {
            consume_events(store, user, &p.events);
        }
    }
}

} // verus!
