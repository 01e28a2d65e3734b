//! Write-back of computed final scores to the candidates' cached field.
use vstd::prelude::*;

use crate::leaderboard::{all_sums_fit, final_scores, finals_spec};
use crate::model::{Candidate, Snapshot};
use crate::normalize::FinalScore;

verus! {

/// One write to a candidate's cached final score: a value in hundredths of a point, or `None`
/// to clear the stored value.
#[derive(Debug, Clone, Copy, PartialEq, Eq, Structural)]
pub struct ScoreUpdate {
    pub candidate_id: u128,
    pub final_score: Option<u32>,
}

/// What the cache holds for a final score: the value, or nothing for an indeterminate one.
pub open spec fn stored_value(f: FinalScore) -> Option<u32> {
    match f {
        FinalScore::Score(v) => Some(v),
        FinalScore::Indeterminate => None,
    }
}

/// The candidate's cached value differs from what its final score calls for.
pub open spec fn needs_write(c: Candidate, f: FinalScore) -> bool {
    c.final_score != stored_value(f)
}

/// The writes owed for the first `n` candidates, in order.
pub open spec fn planned_updates(c: Seq<Candidate>, f: Seq<FinalScore>, n: nat) -> Seq<ScoreUpdate>
    decreases n,
{
    if n == 0 {
        Seq::empty()
    } else {
        let rest = planned_updates(c, f, (n - 1) as nat);
        if needs_write(c[n - 1], f[n - 1]) {
            rest.push(ScoreUpdate { candidate_id: c[n - 1].id, final_score: stored_value(f[n - 1]) })
        } else {
            rest
        }
    }
}

/// A candidate after its final score has been cached; an indeterminate score clears the cache.
pub open spec fn cached(c: Candidate, f: FinalScore) -> Candidate {
    Candidate { final_score: stored_value(f), ..c }
}

/// The writes that bring each candidate's cached score up to date: one per candidate whose
/// stored value differs from its final score, clearing the value of an indeterminate one.
pub fn plan_updates(candidates: &Vec<Candidate>, finals: &Vec<FinalScore>) -> (r: Vec<ScoreUpdate>)
    requires
        candidates.len() == finals.len(),
    ensures
        r@ == planned_updates(candidates@, finals@, candidates.len() as nat),
{
    let mut r: Vec<ScoreUpdate> = Vec::new();
    let n = candidates.len();
    for i in 0..n
        invariant
            n == candidates.len(),
            n == finals.len(),
            r@ == planned_updates(candidates@, finals@, i as nat),
    {
        let c = candidates[i];
        let value = match finals[i] {
            FinalScore::Score(v) => Some(v),
            FinalScore::Indeterminate => None,
        };
        if c.final_score != value {
            r.push(ScoreUpdate { candidate_id: c.id, final_score: value });
        }
    }
    r
}

/// The writes owed after recomputing every candidate's final score in an event.
pub fn sync_plan(snapshot: &Snapshot, event_id: u128) -> (r: Vec<ScoreUpdate>)
    requires
        snapshot.wf(),
        all_sums_fit(snapshot, event_id),
    ensures
        r@ == planned_updates(
            snapshot.candidates@,
            finals_spec(snapshot, event_id),
            snapshot.candidates.len() as nat,
        ),
{
    let finals = final_scores(snapshot, event_id);
    plan_updates(&snapshot.candidates, &finals)
}

/// Stores each final score in the candidate's cached field; an indeterminate one clears it.
pub fn record_final_scores(candidates: &mut Vec<Candidate>, finals: &Vec<FinalScore>)
    requires
        old(candidates).len() == finals.len(),
    ensures
        final(candidates).len() == old(candidates).len(),
        forall|i: int|
            0 <= i < finals.len() ==> #[trigger] final(candidates)[i] == cached(
                old(candidates)[i],
                finals[i],
            ),
{
    let n = candidates.len();
    for i in 0..n
        invariant
            n == candidates.len(),
            n == finals.len(),
            forall|k: int| 0 <= k < i ==> #[trigger] candidates[k] == cached(old(candidates)[k], finals[k]),
            forall|k: int| i <= k < n ==> #[trigger] candidates[k] == old(candidates)[k],
    {
        let c = candidates[i];
        let value = match finals[i] {
            FinalScore::Score(v) => Some(v),
            FinalScore::Indeterminate => None,
        };
        candidates[i] = Candidate { final_score: value, ..c };
    }
}

proof fn lemma_planned_empty(c: Seq<Candidate>, f: Seq<FinalScore>, n: nat)
    requires
        n <= c.len(),
        n <= f.len(),
        forall|i: int| 0 <= i < n ==> !needs_write(#[trigger] c[i], f[i]),
    ensures
        planned_updates(c, f, n).len() == 0,
    decreases n,
{
    if n > 0 {
        lemma_planned_empty(c, f, (n - 1) as nat);
    }
}

/// Write-back is idempotent: once the final scores are cached, the same scores call for no
/// further write.
pub proof fn lemma_sync_idempotent(c: Seq<Candidate>, f: Seq<FinalScore>, after: Seq<Candidate>)
    requires
        c.len() == f.len(),
        after.len() == c.len(),
        forall|i: int| 0 <= i < c.len() ==> #[trigger] after[i] == cached(c[i], f[i]),
    ensures
        planned_updates(after, f, after.len() as nat).len() == 0,
{
    assert forall|i: int| 0 <= i < after.len() implies !needs_write(#[trigger] after[i], f[i]) by {
        assert(after[i] == cached(c[i], f[i]));
    }
    lemma_planned_empty(after, f, after.len() as nat);
}

} // verus!
