//! The snapshot that one aggregation run reads, and the read accessors over it.
use vstd::prelude::*;

use crate::ScoreError;

verus! {

/// One judge's score for one candidate in one category, optionally for one criterion.
#[derive(Debug, Clone, Copy, PartialEq, Eq, Structural)]
pub struct ScoreEntry {
    pub candidate_id: u128,
    pub category_id: u128,
    pub judge_id: u128,
    pub criteria_id: Option<u128>,
    /// Points awarded.
    pub score: u32,
    /// Points attainable for this entry.
    pub max: u32,
}

/// A judged dimension of an event.
#[derive(Debug, Clone, Copy, PartialEq, Eq, Structural)]
pub struct Category {
    pub id: u128,
    pub event_id: u128,
    /// Weight in ten-thousandths: `5000` stands for a weight of `0.5`.
    pub weight: u32,
}

/// A contestant, as far as scoring and ranking need it.
#[derive(Debug, Clone, Copy, PartialEq, Eq, Structural)]
pub struct Candidate {
    pub id: u128,
    /// Sequence number, used for display order and to break ties.
    pub number: i32,
    /// Gender flag; `1` marks the male group.
    pub gender: i32,
    /// The cached final score in hundredths of a point, if one was stored.
    pub final_score: Option<u32>,
}

/// A consistent read of the data store.
pub struct Snapshot {
    pub events: Vec<u128>,
    pub categories: Vec<Category>,
    pub candidates: Vec<Candidate>,
    pub scores: Vec<ScoreEntry>,
}

/// The entries of `s` that belong to the given candidate and category, in order.
pub open spec fn matching_entries(s: Seq<ScoreEntry>, candidate_id: u128, category_id: u128) -> Seq<
    ScoreEntry,
>
    decreases s.len(),
{
    if s.len() == 0 {
        Seq::empty()
    } else {
        let rest = matching_entries(s.drop_last(), candidate_id, category_id);
        if s.last().candidate_id == candidate_id && s.last().category_id == category_id {
            rest.push(s.last())
        } else {
            rest
        }
    }
}

/// The categories of `c` that belong to the given event, in order.
pub open spec fn event_categories(c: Seq<Category>, event_id: u128) -> Seq<Category>
    decreases c.len(),
{
    if c.len() == 0 {
        Seq::empty()
    } else {
        let rest = event_categories(c.drop_last(), event_id);
        if c.last().event_id == event_id {
            rest.push(c.last())
        } else {
            rest
        }
    }
}

pub open spec fn has_candidate(c: Seq<Candidate>, id: u128) -> bool {
    exists|i: int| 0 <= i < c.len() && #[trigger] c[i].id == id
}

pub open spec fn has_category(c: Seq<Category>, id: u128) -> bool {
    exists|i: int| 0 <= i < c.len() && #[trigger] c[i].id == id
}

impl Snapshot {
    /// Every entry awards no more than it allows.
    pub open spec fn wf(&self) -> bool {
        forall|i: int| 0 <= i < self.scores.len() ==> #[trigger] self.scores[i].score <= self.scores[i].max
    }

    /// No two candidates share an id.
    pub open spec fn ids_unique(&self) -> bool {
        forall|i: int, j: int|
            0 <= i < j < self.candidates.len() ==> #[trigger] self.candidates[i].id
                != #[trigger] self.candidates[j].id
    }

    /// Checks that no two candidates share an id.
    pub fn ids_unique_check(&self) -> (r: bool)
        ensures
            r == self.ids_unique(),
    {
        let n = self.candidates.len();
        for i in 0..n
            invariant
                n == self.candidates.len(),
                forall|a: int, b: int|
                    0 <= a < i && a < b < n ==> #[trigger] self.candidates[a].id
                        != #[trigger] self.candidates[b].id,
        {
            for j in i + 1..n
                invariant
                    n == self.candidates.len(),
                    i < n,
                    forall|a: int, b: int|
                        0 <= a < i && a < b < n ==> #[trigger] self.candidates[a].id
                            != #[trigger] self.candidates[b].id,
                    forall|b: int| i < b < j ==> self.candidates[i as int].id != #[trigger] self.candidates[b].id,
            {
                if self.candidates[i].id == self.candidates[j].id {
                    return false;
                }
            }
        }
        true
    }

    /// Raw score rows for one candidate in one category.
    pub fn entries_for(&self, candidate_id: u128, category_id: u128) -> (r: Vec<ScoreEntry>)
        ensures
            r@ == matching_entries(self.scores@, candidate_id, category_id),
    {
        let mut r: Vec<ScoreEntry> = Vec::new();
        let n = self.scores.len();
        for i in 0..n
            invariant
                n == self.scores.len(),
                r@ == matching_entries(self.scores@.take(i as int), candidate_id, category_id),
        {
            proof {
                assert(self.scores@.take(i + 1).drop_last() =~= self.scores@.take(i as int));
            }
            let e = self.scores[i];
            if e.candidate_id == candidate_id && e.category_id == category_id {
                r.push(e);
            }
        }
        proof {
            assert(self.scores@.take(n as int) =~= self.scores@);
        }
        r
    }

    /// The categories of an event; `NotFound` when the event has none.
    pub fn event_categories(&self, event_id: u128) -> (r: Result<Vec<Category>, ScoreError>)
        ensures
            match r {
                Ok(v) => v@ == event_categories(self.categories@, event_id) && v@.len() > 0,
                Err(e) => e == ScoreError::NotFound && event_categories(
                    self.categories@,
                    event_id,
                ).len() == 0,
            },
    {
        let mut r: Vec<Category> = Vec::new();
        let n = self.categories.len();
        for i in 0..n
            invariant
                n == self.categories.len(),
                r@ == event_categories(self.categories@.take(i as int), event_id),
        {
            proof {
                assert(self.categories@.take(i + 1).drop_last() =~= self.categories@.take(i as int));
            }
            let c = self.categories[i];
            if c.event_id == event_id {
                r.push(c);
            }
        }
        proof {
            assert(self.categories@.take(n as int) =~= self.categories@);
        }
        if r.len() == 0 {
            Err(ScoreError::NotFound)
        } else {
            Ok(r)
        }
    }

    /// The first category with the given id.
    pub fn find_category(&self, id: u128) -> (r: Option<Category>)
        ensures
            match r {
                Some(c) => exists|i: int|
                    0 <= i < self.categories.len() && self.categories[i] == c && c.id == id
                        && forall|j: int| 0 <= j < i ==> #[trigger] self.categories[j].id != id,
                None => !has_category(self.categories@, id),
            },
    {
        let n = self.categories.len();
        for i in 0..n
            invariant
                n == self.categories.len(),
                forall|j: int| 0 <= j < i ==> #[trigger] self.categories[j].id != id,
        {
            if self.categories[i].id == id {
                return Some(self.categories[i]);
            }
        }
        None
    }

    pub fn contains_candidate(&self, id: u128) -> (r: bool)
        ensures
            r == has_candidate(self.candidates@, id),
    {
        let n = self.candidates.len();
        for i in 0..n
            invariant
                n == self.candidates.len(),
                forall|j: int| 0 <= j < i ==> #[trigger] self.candidates[j].id != id,
        {
            if self.candidates[i].id == id {
                return true;
            }
        }
        false
    }

    pub fn contains_event(&self, id: u128) -> (r: bool)
        ensures
            r == self.events@.contains(id),
    {
        let n = self.events.len();
        for i in 0..n
            invariant
                n == self.events.len(),
                forall|j: int| 0 <= j < i ==> self.events[j] != id,
        {
            if self.events[i] == id {
                return true;
            }
        }
        false
    }

    /// Checks that every entry awards no more than it allows.
    pub fn entries_valid(&self) -> (r: bool)
        ensures
            r == self.wf(),
    {
        let n = self.scores.len();
        for i in 0..n
            invariant
                n == self.scores.len(),
                forall|j: int| 0 <= j < i ==> #[trigger] self.scores[j].score <= self.scores[j].max,
        {
            if self.scores[i].score > self.scores[i].max {
                return false;
            }
        }
        true
    }
}

} // verus!
