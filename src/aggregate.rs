//! Per candidate and category: raw totals and their weighted values.
use vstd::prelude::*;

use crate::model::{has_candidate, has_category, matching_entries, ScoreEntry, Snapshot};
use crate::ScoreError;

verus! {

/// Sum of `score` over a sequence of entries.
pub open spec fn entries_score(s: Seq<ScoreEntry>) -> nat
    decreases s.len(),
{
    if s.len() == 0 {
        0
    } else {
        entries_score(s.drop_last()) + s.last().score as nat
    }
}

/// Sum of `max` over a sequence of entries.
pub open spec fn entries_max(s: Seq<ScoreEntry>) -> nat
    decreases s.len(),
{
    if s.len() == 0 {
        0
    } else {
        entries_max(s.drop_last()) + s.last().max as nat
    }
}

/// Totals of one candidate in one category. Weighted values are in ten-thousandths of a point.
#[derive(Debug, Clone, Copy, PartialEq, Eq, Structural)]
pub struct CategoryTotal {
    pub total_score: u128,
    pub total_max: u128,
    pub weighted_score: u128,
    pub weighted_max: u128,
}

impl CategoryTotal {
    /// The weighted score never exceeds the weighted maximum.
    pub open spec fn wf(&self) -> bool {
        self.weighted_score <= self.weighted_max
    }
}

/// Where no entry awards more than it allows, neither does their sum.
pub proof fn lemma_entries_score_le_max(s: Seq<ScoreEntry>)
    requires
        forall|i: int| 0 <= i < s.len() ==> #[trigger] s[i].score <= s[i].max,
    ensures
        entries_score(s) <= entries_max(s),
    decreases s.len(),
{
    if s.len() > 0 {
        lemma_entries_score_le_max(s.drop_last());
    }
}

/// Sums scores and maxima over `entries` and scales both by `weight` (in ten-thousandths).
pub fn aggregate_entries(entries: &Vec<ScoreEntry>, weight: u32) -> (t: CategoryTotal)
    ensures
        t.total_score == entries_score(entries@),
        t.total_max == entries_max(entries@),
        t.weighted_score == entries_score(entries@) * weight,
        t.weighted_max == entries_max(entries@) * weight,
        entries@.len() == 0 ==> t.weighted_score == 0 && t.weighted_max == 0,
{
    let mut total_score: u128 = 0;
    let mut total_max: u128 = 0;
    let n = entries.len();
    for i in 0..n
        invariant
            n == entries.len(),
            total_score == entries_score(entries@.take(i as int)),
            total_max == entries_max(entries@.take(i as int)),
            total_score <= i * 0xffff_ffff,
            total_max <= i * 0xffff_ffff,
    {
        proof {
            assert(entries@.take(i + 1).drop_last() =~= entries@.take(i as int));
        }
        total_score = total_score + entries[i].score as u128;
        total_max = total_max + entries[i].max as u128;
    }
    proof {
        assert(entries@.take(n as int) =~= entries@);
        if n == 0 {
            assert(total_score == 0 && total_max == 0);
            assert(0 * (weight as int) == 0);
        }
        let ts = total_score as int;
        let tm = total_max as int;
        let w = weight as int;
        assert(ts * w <= 0xffff_ffff_ffff_ffff_ffff_ffff * 0xffff_ffff) by (nonlinear_arith)
            requires
                0 <= ts <= 0xffff_ffff_ffff_ffff_ffff_ffff,
                0 <= w <= 0xffff_ffff,
        ;
        assert(tm * w <= 0xffff_ffff_ffff_ffff_ffff_ffff * 0xffff_ffff) by (nonlinear_arith)
            requires
                0 <= tm <= 0xffff_ffff_ffff_ffff_ffff_ffff,
                0 <= w <= 0xffff_ffff,
        ;
    }
    CategoryTotal {
        total_score,
        total_max,
        weighted_score: total_score * weight as u128,
        weighted_max: total_max * weight as u128,
    }
}

/// The totals of one candidate in one category of the snapshot.
pub fn aggregate_category(snapshot: &Snapshot, candidate_id: u128, category_id: u128) -> (r: Result<
    CategoryTotal,
    ScoreError,
>)
    ensures
        match r {
            Ok(t) => {
                &&& has_candidate(snapshot.candidates@, candidate_id)
                &&& exists|i: int|
                    0 <= i < snapshot.categories.len() && snapshot.categories[i].id == category_id
                        && (forall|j: int| 0 <= j < i ==> #[trigger] snapshot.categories[j].id != category_id)
                        && {
                        let s = matching_entries(snapshot.scores@, candidate_id, category_id);
                        let w = snapshot.categories[i].weight;
                        &&& t.total_score == entries_score(s)
                        &&& t.total_max == entries_max(s)
                        &&& t.weighted_score == entries_score(s) * w
                        &&& t.weighted_max == entries_max(s) * w
                    }
            },
            Err(e) => e == ScoreError::NotFound && !(has_candidate(
                snapshot.candidates@,
                candidate_id,
            ) && has_category(snapshot.categories@, category_id)),
        },
{
    if !snapshot.contains_candidate(candidate_id) {
        return Err(ScoreError::NotFound);
    }
    match snapshot.find_category(category_id) {
        None => Err(ScoreError::NotFound),
        Some(c) => {
            let entries = snapshot.entries_for(candidate_id, category_id);
            Ok(aggregate_entries(&entries, c.weight))
        },
    }
}

/// A category in which the candidate has no entry contributes nothing: its totals, and so its
/// weighted score and weighted maximum, are zero whatever its weight.
pub proof fn lemma_no_entries_no_contribution(
    s: Seq<ScoreEntry>,
    candidate_id: u128,
    category_id: u128,
    weight: u32,
)
    requires
        forall|i: int|
            0 <= i < s.len() ==> !((#[trigger] s[i]).candidate_id == candidate_id && s[i].category_id
                == category_id),
    ensures
        matching_entries(s, candidate_id, category_id).len() == 0,
        entries_score(matching_entries(s, candidate_id, category_id)) * weight == 0,
        entries_max(matching_entries(s, candidate_id, category_id)) * weight == 0,
    decreases s.len(),
{
    if s.len() > 0 {
        let s0 = s.drop_last();
        assert forall|i: int| 0 <= i < s0.len() implies !((#[trigger] s0[i]).candidate_id == candidate_id
            && s0[i].category_id == category_id) by {
            assert(s0[i] == s[i]);
        }
        lemma_no_entries_no_contribution(s0, candidate_id, category_id, weight);
        assert(s.last() == s[s.len() - 1]);
    }
    let m = matching_entries(s, candidate_id, category_id);
    let (x, y, w) = (entries_score(m) as int, entries_max(m) as int, weight as int);
    assert(x == 0 && y == 0);
    assert(x * w == 0 && y * w == 0) by (nonlinear_arith)
        requires
            x == 0,
            y == 0,
    ;
}

} // verus!
