//! Grouping, ordering, ranking and top-N selection of final scores.
use vstd::prelude::*;

use crate::model::{Candidate, Snapshot};
use crate::normalize::{final_score_of, final_score_spec, sums_fit, sums_fit_check, FinalScore};
use crate::ScoreError;

verus! {

/// A partition of the candidates that is ranked on its own.
#[derive(Debug, Clone, Copy, PartialEq, Eq, Structural)]
pub enum Group {
    All,
    Male,
    Female,
}

/// How a leaderboard splits the candidates.
#[derive(Debug, Clone, Copy, PartialEq, Eq, Structural)]
pub enum GroupBy {
    Overall,
    Gender,
}

/// One ranked candidate.
#[derive(Debug, Clone, Copy, PartialEq, Eq, Structural)]
pub struct LeaderboardEntry {
    pub candidate_id: u128,
    pub candidate_number: i32,
    pub gender: i32,
    /// Position of the candidate in the snapshot's candidate list.
    pub index: usize,
    /// Final score in hundredths of a point.
    pub final_score: u32,
    /// 1-based rank within the group.
    pub rank: usize,
}

/// The ranked sequence of one group.
#[derive(Debug, PartialEq, Eq)]
pub struct RankedGroup {
    pub group: Group,
    pub entries: Vec<LeaderboardEntry>,
}

/// Ranked groups, and the candidates that have no score and so no rank.
#[derive(Debug, PartialEq, Eq)]
pub struct Leaderboard {
    pub groups: Vec<RankedGroup>,
    pub unranked: Vec<u128>,
}

pub open spec fn in_group(c: Candidate, g: Group) -> bool {
    match g {
        Group::All => true,
        Group::Male => c.gender == 1,
        Group::Female => c.gender != 1,
    }
}

/// Candidate `i` belongs to group `g` and has a final score.
pub open spec fn eligible(c: Seq<Candidate>, f: Seq<FinalScore>, g: Group, i: int) -> bool {
    &&& 0 <= i < c.len()
    &&& i < f.len()
    &&& in_group(c[i], g)
    &&& f[i] is Score
}

pub open spec fn score_value(f: FinalScore) -> u32 {
    match f {
        FinalScore::Score(v) => v,
        FinalScore::Indeterminate => 0,
    }
}

/// The entry that candidate `i` gets at the given rank.
pub open spec fn entry_of(c: Seq<Candidate>, f: Seq<FinalScore>, i: int, rank: int) -> LeaderboardEntry {
    LeaderboardEntry {
        candidate_id: c[i].id,
        candidate_number: c[i].number,
        gender: c[i].gender,
        index: i as usize,
        final_score: score_value(f[i]),
        rank: rank as usize,
    }
}

/// `a` ranks before `b`: a higher score, or an equal score and a lower sequence number,
/// or both equal and an earlier place in the snapshot.
pub open spec fn precedes(a: LeaderboardEntry, b: LeaderboardEntry) -> bool {
    ||| a.final_score > b.final_score
    ||| (a.final_score == b.final_score && a.candidate_number < b.candidate_number)
    ||| (a.final_score == b.final_score && a.candidate_number == b.candidate_number && a.index
        < b.index)
}

/// `r` ranks group `g`: the eligible candidates in order, each with its 1-based position as rank,
/// all of them unless `top_n` cuts the sequence, and then only the first `top_n`.
pub open spec fn ranked(
    c: Seq<Candidate>,
    f: Seq<FinalScore>,
    g: Group,
    top_n: Option<usize>,
    r: Seq<LeaderboardEntry>,
) -> bool {
    &&& forall|k: int|
        0 <= k < r.len() ==> eligible(c, f, g, #[trigger] r[k].index as int) && r[k] == entry_of(
            c,
            f,
            r[k].index as int,
            k + 1,
        )
    &&& forall|a: int, b: int| 0 <= a < b < r.len() ==> precedes(#[trigger] r[a], #[trigger] r[b])
    &&& forall|i: int|
        #[trigger] eligible(c, f, g, i) ==> (exists|k: int| 0 <= k < r.len() && r[k].index == i) || (
        top_n == Some(r.len() as usize) && forall|k: int|
            0 <= k < r.len() ==> precedes(#[trigger] r[k], entry_of(c, f, i, 0)))
    &&& top_n matches Some(m) ==> r.len() <= m
    &&& r.len() <= usize::MAX
}

/// Ids of the candidates without a final score, in snapshot order.
pub open spec fn unranked_ids(c: Seq<Candidate>, f: Seq<FinalScore>, n: nat) -> Seq<u128>
    decreases n,
{
    if n == 0 {
        Seq::empty()
    } else {
        let rest = unranked_ids(c, f, (n - 1) as nat);
        if f[n - 1] is Indeterminate {
            rest.push(c[n - 1].id)
        } else {
            rest
        }
    }
}

/// The final score of candidate `i` of the snapshot in an event.
pub open spec fn final_of(snapshot: &Snapshot, event_id: u128, i: int) -> FinalScore {
    match final_score_spec(snapshot, snapshot.candidates[i].id, event_id) {
        Some(v) => FinalScore::Score(v as u32),
        None => FinalScore::Indeterminate,
    }
}

/// The final scores of all candidates of the snapshot in an event, in snapshot order.
pub open spec fn finals_spec(snapshot: &Snapshot, event_id: u128) -> Seq<FinalScore> {
    Seq::new(snapshot.candidates.len() as nat, |i: int| final_of(snapshot, event_id, i))
}

/// Every candidate's weighted maximum in the event fits the normalizer's arithmetic.
pub open spec fn all_sums_fit(snapshot: &Snapshot, event_id: u128) -> bool {
    forall|i: int|
        0 <= i < snapshot.candidates.len() ==> sums_fit(
            snapshot,
            #[trigger] snapshot.candidates[i].id,
            event_id,
        )
}

fn ranks_before(a: &LeaderboardEntry, b: &LeaderboardEntry) -> (r: bool)
    ensures
        r == precedes(*a, *b),
{
    a.final_score > b.final_score || (a.final_score == b.final_score && (a.candidate_number
        < b.candidate_number || (a.candidate_number == b.candidate_number && a.index < b.index)))
}

/// The final scores of every candidate in an event, in snapshot order.
pub fn final_scores(snapshot: &Snapshot, event_id: u128) -> (r: Vec<FinalScore>)
    requires
        snapshot.wf(),
        all_sums_fit(snapshot, event_id),
    ensures
        r@ == finals_spec(snapshot, event_id),
{
    let mut r: Vec<FinalScore> = Vec::new();
    let n = snapshot.candidates.len();
    for i in 0..n
        invariant
            n == snapshot.candidates.len(),
            snapshot.wf(),
            all_sums_fit(snapshot, event_id),
            r.len() == i,
            forall|k: int| 0 <= k < i ==> r[k] == #[trigger] final_of(snapshot, event_id, k),
    {
        let f = final_score_of(snapshot, snapshot.candidates[i].id, event_id);
        proof {
            assert(sums_fit(snapshot, snapshot.candidates[i as int].id, event_id));
        }
        r.push(f);
        proof {
            assert(r[i as int] == final_of(snapshot, event_id, i as int));
        }
    }
    assert(r@ =~= finals_spec(snapshot, event_id));
    r
}

/// Orders the eligible candidates of group `group`, assigns ranks, and keeps the first `top_n`.
pub fn rank_candidates(
    candidates: &Vec<Candidate>,
    finals: &Vec<FinalScore>,
    group: Group,
    top_n: Option<usize>,
) -> (r: Vec<LeaderboardEntry>)
    requires
        candidates.len() == finals.len(),
    ensures
        ranked(candidates@, finals@, group, top_n, r@),
{
    let ghost c = candidates@;
    let ghost f = finals@;
    let mut sorted: Vec<LeaderboardEntry> = Vec::new();
    let n = candidates.len();
    for i in 0..n
        invariant
            n == candidates.len(),
            n == finals.len(),
            c == candidates@,
            f == finals@,
            forall|k: int|
                0 <= k < sorted.len() ==> (#[trigger] sorted[k]).index < i && eligible(
                    c,
                    f,
                    group,
                    sorted[k].index as int,
                ) && sorted[k] == entry_of(c, f, sorted[k].index as int, 0),
            forall|a: int, b: int|
                0 <= a < b < sorted.len() ==> precedes(#[trigger] sorted[a], #[trigger] sorted[b]),
            forall|j: int|
                0 <= j < i && #[trigger] eligible(c, f, group, j) ==> exists|k: int|
                    0 <= k < sorted.len() && sorted[k].index == j,
    {
        let cand = candidates[i];
        let member = match group {
            Group::All => true,
            Group::Male => cand.gender == 1,
            Group::Female => cand.gender != 1,
        };
        if member {
            if let FinalScore::Score(v) = finals[i] {
                let e = LeaderboardEntry {
                    candidate_id: cand.id,
                    candidate_number: cand.number,
                    gender: cand.gender,
                    index: i,
                    final_score: v,
                    rank: 0,
                };
                assert(e == entry_of(c, f, i as int, 0));
                let mut pos: usize = 0;
                while pos < sorted.len()
                    invariant_except_break
                        pos <= sorted.len(),
                        forall|k: int| 0 <= k < sorted.len() ==> (#[trigger] sorted[k]).index < e.index,
                        forall|k: int| 0 <= k < pos ==> precedes(#[trigger] sorted[k], e),
                    ensures
                        pos <= sorted.len(),
                        forall|k: int| 0 <= k < pos ==> precedes(#[trigger] sorted[k], e),
                        pos < sorted.len() ==> precedes(e, sorted[pos as int]),
                    decreases sorted.len() - pos,
                {
                    if ranks_before(&e, &sorted[pos]) {
                        break;
                    }
                    pos = pos + 1;
                }
                let ghost old_sorted = sorted@;
                sorted.insert(pos, e);
                proof {
                    lemma_insert_keeps_order(old_sorted, e, pos as int, sorted@);
                    assert forall|j: int|
                        0 <= j < i + 1 && #[trigger] eligible(c, f, group, j) implies exists|k: int|
                        0 <= k < sorted.len() && sorted[k].index == j by {
                        if j == i {
                            assert(sorted[pos as int].index == j);
                        } else {
                            let k0 = choose|k: int| 0 <= k < old_sorted.len() && old_sorted[k].index == j;
                            if k0 < pos {
                                assert(sorted[k0].index == j);
                            } else {
                                assert(sorted[k0 + 1].index == j);
                            }
                        }
                    }
                }
            }
        }
    }
    let limit: usize = match top_n {
        Some(m) => if m < sorted.len() {
            m
        } else {
            sorted.len()
        },
        None => sorted.len(),
    };
    let mut r: Vec<LeaderboardEntry> = Vec::new();
    for k in 0..limit
        invariant
            limit <= sorted.len(),
            r.len() == k,
            forall|a: int|
                0 <= a < k ==> (#[trigger] r[a]) == (LeaderboardEntry { rank: (a + 1) as usize, ..sorted[a] }),
    {
        let e = sorted[k];
        r.push(LeaderboardEntry { rank: k + 1, ..e });
    }
    proof {
        assert forall|k: int| 0 <= k < r.len() implies eligible(c, f, group, #[trigger] r[k].index as int)
            && r[k] == entry_of(c, f, r[k].index as int, k + 1) by {
            assert(sorted[k] == entry_of(c, f, sorted[k].index as int, 0));
        }
        assert forall|a: int, b: int| 0 <= a < b < r.len() implies precedes(#[trigger] r[a], #[trigger] r[b]) by {
            assert(precedes(sorted[a], sorted[b]));
        }
        assert forall|j: int| #[trigger] eligible(c, f, group, j) implies (exists|k: int|
            0 <= k < r.len() && r[k].index == j) || (top_n == Some(r.len() as usize) && forall|k: int|
            0 <= k < r.len() ==> precedes(#[trigger] r[k], entry_of(c, f, j, 0))) by {
            let k0 = choose|k: int| 0 <= k < sorted.len() && sorted[k].index == j;
            if k0 < limit {
                assert(r[k0].index == j);
            } else {
                assert(sorted[k0] == entry_of(c, f, j, 0));
                assert forall|k: int| 0 <= k < r.len() implies precedes(#[trigger] r[k], entry_of(c, f, j, 0)) by {
                    assert(precedes(sorted[k], sorted[k0]));
                }
            }
        }
    }
    r
}

proof fn lemma_insert_keeps_order(
    s: Seq<LeaderboardEntry>,
    e: LeaderboardEntry,
    pos: int,
    t: Seq<LeaderboardEntry>,
)
    requires
        0 <= pos <= s.len(),
        t == s.insert(pos, e),
        forall|a: int, b: int| 0 <= a < b < s.len() ==> precedes(#[trigger] s[a], #[trigger] s[b]),
        forall|k: int| 0 <= k < pos ==> precedes(#[trigger] s[k], e),
        pos < s.len() ==> precedes(e, s[pos]),
    ensures
        forall|a: int, b: int| 0 <= a < b < t.len() ==> precedes(#[trigger] t[a], #[trigger] t[b]),
{
    assert forall|a: int, b: int| 0 <= a < b < t.len() implies precedes(#[trigger] t[a], #[trigger] t[b]) by {
        if b < pos {
            assert(t[a] == s[a] && t[b] == s[b]);
        } else if b == pos {
            assert(t[a] == s[a]);
        } else if a < pos {
            assert(t[a] == s[a] && t[b] == s[b - 1]);
            assert(precedes(s[a], e));
            assert(precedes(e, s[pos]));
            if b - 1 > pos {
                assert(precedes(s[pos], s[b - 1]));
            }
        } else if a == pos {
            assert(t[b] == s[b - 1]);
            if b - 1 > pos {
                assert(precedes(s[pos], s[b - 1]));
            }
        } else {
            assert(t[a] == s[a - 1] && t[b] == s[b - 1]);
        }
    }
}

/// Ids of the candidates whose final score is `Indeterminate`, in order.
pub fn unranked_candidates(candidates: &Vec<Candidate>, finals: &Vec<FinalScore>) -> (r: Vec<u128>)
    requires
        candidates.len() == finals.len(),
    ensures
        r@ == unranked_ids(candidates@, finals@, candidates.len() as nat),
{
    let mut r: Vec<u128> = Vec::new();
    let n = candidates.len();
    for i in 0..n
        invariant
            n == candidates.len(),
            n == finals.len(),
            r@ == unranked_ids(candidates@, finals@, i as nat),
    {
        if let FinalScore::Indeterminate = finals[i] {
            r.push(candidates[i].id);
        }
    }
    r
}

/// The groups that `group_by` asks for, in display order.
pub open spec fn groups_of(group_by: GroupBy) -> Seq<Group> {
    match group_by {
        GroupBy::Overall => seq![Group::All],
        GroupBy::Gender => seq![Group::Male, Group::Female],
    }
}

/// `lb` holds, for each group that `group_by` asks for and in that order, the ranking of the
/// event's final scores within the group, and the ids of the candidates left unranked.
pub open spec fn leaderboard_of(
    snapshot: &Snapshot,
    event_id: u128,
    group_by: GroupBy,
    top_n: Option<usize>,
    lb: Leaderboard,
) -> bool {
    let f = finals_spec(snapshot, event_id);
    &&& lb.groups.len() == groups_of(group_by).len()
    &&& forall|g: int|
        0 <= g < lb.groups.len() ==> (#[trigger] lb.groups[g]).group == groups_of(group_by)[g]
            && ranked(snapshot.candidates@, f, lb.groups[g].group, top_n, lb.groups[g].entries@)
    &&& lb.unranked@ == unranked_ids(snapshot.candidates@, f, snapshot.candidates.len() as nat)
}

/// Ranks the candidates of an event, per group, keeping the first `top_n` of each group.
pub fn build_leaderboard(
    snapshot: &Snapshot,
    event_id: u128,
    group_by: GroupBy,
    top_n: Option<usize>,
) -> (r: Result<Leaderboard, ScoreError>)
    requires
        snapshot.wf(),
        all_sums_fit(snapshot, event_id),
    ensures
        match r {
            Ok(lb) => snapshot.events@.contains(event_id) && leaderboard_of(
                snapshot,
                event_id,
                group_by,
                top_n,
                lb,
            ),
            Err(e) => e == ScoreError::NotFound && !snapshot.events@.contains(event_id),
        },
{
    if !snapshot.contains_event(event_id) {
        return Err(ScoreError::NotFound);
    }
    let finals = final_scores(snapshot, event_id);
    let mut groups: Vec<RankedGroup> = Vec::new();
    match group_by {
        GroupBy::Overall => {
            let entries = rank_candidates(&snapshot.candidates, &finals, Group::All, top_n);
            groups.push(RankedGroup { group: Group::All, entries });
        },
        GroupBy::Gender => {
            let male = rank_candidates(&snapshot.candidates, &finals, Group::Male, top_n);
            groups.push(RankedGroup { group: Group::Male, entries: male });
            let female = rank_candidates(&snapshot.candidates, &finals, Group::Female, top_n);
            groups.push(RankedGroup { group: Group::Female, entries: female });
        },
    }
    let unranked = unranked_candidates(&snapshot.candidates, &finals);
    Ok(Leaderboard { groups, unranked })
}

proof fn lemma_ranked_prefix_agree(
    c: Seq<Candidate>,
    f: Seq<FinalScore>,
    g: Group,
    top_n: Option<usize>,
    r1: Seq<LeaderboardEntry>,
    r2: Seq<LeaderboardEntry>,
    k: int,
)
    requires
        ranked(c, f, g, top_n, r1),
        ranked(c, f, g, top_n, r2),
        0 <= k <= r1.len(),
        k <= r2.len(),
    ensures
        forall|j: int| 0 <= j < k ==> r1[j] == r2[j],
    decreases k,
{
    if k > 0 {
        lemma_ranked_prefix_agree(c, f, g, top_n, r1, r2, k - 1);
        let j = k - 1;
        let x = r1[j].index as int;
        let y = r2[j].index as int;
        if x != y {
            let ex = entry_of(c, f, x, 0);
            let ey = entry_of(c, f, y, 0);
            assert(eligible(c, f, g, x) && eligible(c, f, g, y));
            if precedes(ex, ey) {
                if exists|b: int| 0 <= b < r2.len() && r2[b].index == x {
                    let b = choose|b: int| 0 <= b < r2.len() && r2[b].index == x;
                    if b < j {
                        assert(r1[b] == r2[b]);
                        assert(precedes(r1[b], r1[j]));
                    } else {
                        assert(precedes(r2[j], r2[b]));
                    }
                } else {
                    assert(precedes(r2[j], ex));
                }
            } else {
                if exists|b: int| 0 <= b < r1.len() && r1[b].index == y {
                    let b = choose|b: int| 0 <= b < r1.len() && r1[b].index == y;
                    if b < j {
                        assert(r1[b] == r2[b]);
                        assert(precedes(r2[b], r2[j]));
                    } else {
                        assert(precedes(r1[j], r1[b]));
                    }
                } else {
                    assert(precedes(r1[j], ey));
                }
            }
        }
    }
}

proof fn lemma_ranked_not_shorter(
    c: Seq<Candidate>,
    f: Seq<FinalScore>,
    g: Group,
    top_n: Option<usize>,
    r1: Seq<LeaderboardEntry>,
    r2: Seq<LeaderboardEntry>,
)
    requires
        ranked(c, f, g, top_n, r1),
        ranked(c, f, g, top_n, r2),
    ensures
        r2.len() <= r1.len(),
{
    if r1.len() < r2.len() {
        lemma_ranked_prefix_agree(c, f, g, top_n, r1, r2, r1.len() as int);
        let j = r1.len() as int;
        let y = r2[j].index as int;
        assert(eligible(c, f, g, y));
        if exists|a: int| 0 <= a < r1.len() && r1[a].index == y {
            let a = choose|a: int| 0 <= a < r1.len() && r1[a].index == y;
            assert(r1[a] == r2[a]);
            assert(precedes(r2[a], r2[j]));
        }
    }
}

/// Ranking is a function of its inputs: two sequences that both rank the same group of the
/// same candidates and final scores, under the same cut, are equal. Building a leaderboard
/// twice from one snapshot therefore yields the same ranks in the same order.
pub proof fn lemma_ranking_unique(
    c: Seq<Candidate>,
    f: Seq<FinalScore>,
    g: Group,
    top_n: Option<usize>,
    r1: Seq<LeaderboardEntry>,
    r2: Seq<LeaderboardEntry>,
)
    requires
        ranked(c, f, g, top_n, r1),
        ranked(c, f, g, top_n, r2),
    ensures
        r1 == r2,
{
    lemma_ranked_not_shorter(c, f, g, top_n, r1, r2);
    lemma_ranked_not_shorter(c, f, g, top_n, r2, r1);
    lemma_ranked_prefix_agree(c, f, g, top_n, r1, r2, r1.len() as int);
    assert(r1 =~= r2);
}

/// Building a leaderboard is repeatable: any two leaderboards of the same snapshot, event,
/// grouping and cut hold the same groups, the same entries with the same ranks in the same
/// order, and the same unranked candidates.
pub proof fn lemma_leaderboard_repeatable(
    snapshot: &Snapshot,
    event_id: u128,
    group_by: GroupBy,
    top_n: Option<usize>,
    lb1: Leaderboard,
    lb2: Leaderboard,
)
    requires
        leaderboard_of(snapshot, event_id, group_by, top_n, lb1),
        leaderboard_of(snapshot, event_id, group_by, top_n, lb2),
    ensures
        lb1.groups.len() == lb2.groups.len(),
        forall|g: int|
            0 <= g < lb1.groups.len() ==> (#[trigger] lb1.groups[g]).group == lb2.groups[g].group
                && lb1.groups[g].entries@ == lb2.groups[g].entries@,
        lb1.unranked@ == lb2.unranked@,
{
    let f = finals_spec(snapshot, event_id);
    assert forall|g: int| 0 <= g < lb1.groups.len() implies (#[trigger] lb1.groups[g]).group
        == lb2.groups[g].group && lb1.groups[g].entries@ == lb2.groups[g].entries@ by {
        assert(lb2.groups[g].group == groups_of(group_by)[g]);
        lemma_ranking_unique(
            snapshot.candidates@,
            f,
            lb1.groups[g].group,
            top_n,
            lb1.groups[g].entries@,
            lb2.groups[g].entries@,
        );
    }
}

/// Candidates with equal final scores rank in ascending order of sequence number.
pub proof fn lemma_ties_by_number(
    c: Seq<Candidate>,
    f: Seq<FinalScore>,
    g: Group,
    top_n: Option<usize>,
    r: Seq<LeaderboardEntry>,
    a: int,
    b: int,
)
    requires
        ranked(c, f, g, top_n, r),
        0 <= a < r.len(),
        0 <= b < r.len(),
        r[a].final_score == r[b].final_score,
        r[a].candidate_number < r[b].candidate_number,
    ensures
        a < b,
        r[a].rank < r[b].rank,
{
    if b < a {
        assert(precedes(r[b], r[a]));
    }
    assert(r[a] == entry_of(c, f, r[a].index as int, a + 1));
    assert(r[b] == entry_of(c, f, r[b].index as int, b + 1));
}

/// Checks that every candidate's weighted maximum in the event fits the normalizer's arithmetic.
pub fn all_sums_fit_check(snapshot: &Snapshot, event_id: u128) -> (r: bool)
    ensures
        r == all_sums_fit(snapshot, event_id),
{
    let n = snapshot.candidates.len();
    for i in 0..n
        invariant
            n == snapshot.candidates.len(),
            forall|k: int| 0 <= k < i ==> sums_fit(snapshot, #[trigger] snapshot.candidates[k].id, event_id),
    {
        if !sums_fit_check(snapshot, snapshot.candidates[i].id, event_id) {
            return false;
        }
    }
    true
}

/// A candidate's final score, with what orders it in a listing by sequence number.
#[derive(Debug, Clone, Copy, PartialEq, Eq, Structural)]
pub struct CandidateFinal {
    pub candidate_id: u128,
    pub candidate_number: i32,
    pub gender: i32,
    /// Position of the candidate in the snapshot's candidate list.
    pub index: usize,
    pub final_score: FinalScore,
}

/// What candidate `i` gets in a listing of final scores.
pub open spec fn listing_entry(c: Seq<Candidate>, f: Seq<FinalScore>, i: int) -> CandidateFinal {
    CandidateFinal {
        candidate_id: c[i].id,
        candidate_number: c[i].number,
        gender: c[i].gender,
        index: i as usize,
        final_score: f[i],
    }
}

/// `a` comes before `b`: a lower sequence number, or an equal one and an earlier place in
/// the snapshot.
pub open spec fn number_before(a: CandidateFinal, b: CandidateFinal) -> bool {
    ||| a.candidate_number < b.candidate_number
    ||| (a.candidate_number == b.candidate_number && a.index < b.index)
}

proof fn lemma_insert_keeps_number_order(
    s: Seq<CandidateFinal>,
    e: CandidateFinal,
    pos: int,
    t: Seq<CandidateFinal>,
)
    requires
        0 <= pos <= s.len(),
        t == s.insert(pos, e),
        forall|a: int, b: int| 0 <= a < b < s.len() ==> number_before(#[trigger] s[a], #[trigger] s[b]),
        forall|k: int| 0 <= k < pos ==> number_before(#[trigger] s[k], e),
        pos < s.len() ==> number_before(e, s[pos]),
    ensures
        forall|a: int, b: int| 0 <= a < b < t.len() ==> number_before(#[trigger] t[a], #[trigger] t[b]),
{
    assert forall|a: int, b: int| 0 <= a < b < t.len() implies number_before(#[trigger] t[a], #[trigger] t[b]) by {
        if b < pos {
            assert(t[a] == s[a] && t[b] == s[b]);
        } else if b == pos {
            assert(t[a] == s[a]);
        } else if a < pos {
            assert(t[a] == s[a] && t[b] == s[b - 1]);
            assert(number_before(s[a], e));
            assert(number_before(e, s[pos]));
            if b - 1 > pos {
                assert(number_before(s[pos], s[b - 1]));
            }
        } else if a == pos {
            assert(t[b] == s[b - 1]);
            if b - 1 > pos {
                assert(number_before(s[pos], s[b - 1]));
            }
        } else {
            assert(t[a] == s[a - 1] && t[b] == s[b - 1]);
        }
    }
}

/// Some entry of `r` is candidate `i`.
pub open spec fn lists(r: Seq<CandidateFinal>, i: int) -> bool {
    exists|k: int| 0 <= k < r.len() && r[k].index == i
}

/// `r` lists every candidate once, with its final score, in ascending order of sequence number;
/// candidates sharing a number keep their order in `c`.
pub open spec fn listed_by_number(c: Seq<Candidate>, f: Seq<FinalScore>, r: Seq<CandidateFinal>) -> bool {
    &&& r.len() == c.len()
    &&& forall|k: int|
        0 <= k < r.len() ==> (#[trigger] r[k]).index < c.len() && r[k] == listing_entry(
            c,
            f,
            r[k].index as int,
        )
    &&& forall|a: int, b: int| 0 <= a < b < r.len() ==> number_before(#[trigger] r[a], #[trigger] r[b])
    &&& forall|i: int| 0 <= i < c.len() ==> #[trigger] lists(r, i)
}

/// Lists every candidate with its final score, in ascending order of sequence number.
pub fn order_by_number(candidates: &Vec<Candidate>, finals: &Vec<FinalScore>) -> (r: Vec<CandidateFinal>)
    requires
        candidates.len() == finals.len(),
    ensures
        listed_by_number(candidates@, finals@, r@),
{
    let ghost c = candidates@;
    let ghost f = finals@;
    let mut sorted: Vec<CandidateFinal> = Vec::new();
    let n = candidates.len();
    for i in 0..n
        invariant
            n == candidates.len(),
            n == finals.len(),
            c == candidates@,
            f == finals@,
            sorted.len() == i,
            forall|k: int|
                0 <= k < sorted.len() ==> (#[trigger] sorted[k]).index < i && sorted[k] == listing_entry(
                    c,
                    f,
                    sorted[k].index as int,
                ),
            forall|a: int, b: int|
                0 <= a < b < sorted.len() ==> number_before(#[trigger] sorted[a], #[trigger] sorted[b]),
            forall|j: int| 0 <= j < i ==> #[trigger] lists(sorted@, j),
    {
        let cand = candidates[i];
        let e = CandidateFinal {
            candidate_id: cand.id,
            candidate_number: cand.number,
            gender: cand.gender,
            index: i,
            final_score: finals[i],
        };
        assert(e == listing_entry(c, f, i as int));
        let mut pos: usize = 0;
        while pos < sorted.len()
            invariant_except_break
                pos <= sorted.len(),
                forall|k: int| 0 <= k < sorted.len() ==> (#[trigger] sorted[k]).index < e.index,
                forall|k: int| 0 <= k < pos ==> number_before(#[trigger] sorted[k], e),
            ensures
                pos <= sorted.len(),
                forall|k: int| 0 <= k < pos ==> number_before(#[trigger] sorted[k], e),
                pos < sorted.len() ==> number_before(e, sorted[pos as int]),
            decreases sorted.len() - pos,
        {
            if e.candidate_number < sorted[pos].candidate_number {
                break;
            }
            pos = pos + 1;
        }
        let ghost old_sorted = sorted@;
        sorted.insert(pos, e);
        proof {
            lemma_insert_keeps_number_order(old_sorted, e, pos as int, sorted@);
            assert forall|j: int| 0 <= j < i + 1 implies #[trigger] lists(sorted@, j) by {
                if j == i {
                    assert(sorted[pos as int].index == j);
                } else {
                    assert(lists(old_sorted, j));
                    let k0 = choose|k: int| 0 <= k < old_sorted.len() && old_sorted[k].index == j;
                    if k0 < pos {
                        assert(sorted[k0].index == j);
                    } else {
                        assert(sorted[k0 + 1].index == j);
                    }
                }
            }
        }
    }
    sorted
}

/// Every candidate's final score in an event, once each, in ascending order of sequence number;
/// candidates sharing a number keep their snapshot order.
pub fn final_scores_by_number(snapshot: &Snapshot, event_id: u128) -> (r: Vec<CandidateFinal>)
    requires
        snapshot.wf(),
        snapshot.ids_unique(),
        all_sums_fit(snapshot, event_id),
    ensures
        listed_by_number(snapshot.candidates@, finals_spec(snapshot, event_id), r@),
        forall|a: int, b: int|
            0 <= a < b < r.len() ==> (#[trigger] r[a]).candidate_id != (#[trigger] r[b]).candidate_id,
{
    let finals = final_scores(snapshot, event_id);
    let r = order_by_number(&snapshot.candidates, &finals);
    proof {
        let c = snapshot.candidates@;
        let f = finals@;
        assert forall|a: int, b: int| 0 <= a < b < r.len() implies (#[trigger] r[a]).candidate_id
            != (#[trigger] r[b]).candidate_id by {
            assert(number_before(r[a], r[b]));
            assert(r[a] == listing_entry(c, f, r[a].index as int));
            assert(r[b] == listing_entry(c, f, r[b].index as int));
            let (x, y) = (r[a].index as int, r[b].index as int);
            assert(x != y);
            if x < y {
                assert(snapshot.candidates[x].id != snapshot.candidates[y].id);
            } else {
                assert(snapshot.candidates[y].id != snapshot.candidates[x].id);
            }
        }
    }
    r
}

proof fn lemma_listings_agree_up_to(
    c: Seq<Candidate>,
    f: Seq<FinalScore>,
    r1: Seq<CandidateFinal>,
    r2: Seq<CandidateFinal>,
    k: int,
)
    requires
        listed_by_number(c, f, r1),
        listed_by_number(c, f, r2),
        0 <= k <= r1.len(),
    ensures
        forall|j: int| 0 <= j < k ==> r1[j] == r2[j],
    decreases k,
{
    if k > 0 {
        lemma_listings_agree_up_to(c, f, r1, r2, k - 1);
        let j = k - 1;
        let x = r1[j].index as int;
        let y = r2[j].index as int;
        if x != y {
            assert(r1[j] == listing_entry(c, f, x));
            assert(r2[j] == listing_entry(c, f, y));
            if number_before(listing_entry(c, f, x), listing_entry(c, f, y)) {
                assert(lists(r2, x));
                let b = choose|b: int| 0 <= b < r2.len() && r2[b].index == x;
                assert(r2[b] == listing_entry(c, f, x));
                if b < j {
                    assert(r1[b] == r2[b]);
                    assert(number_before(r1[b], r1[j]));
                } else {
                    assert(number_before(r2[j], r2[b]));
                }
            } else {
                assert(lists(r1, y));
                let b = choose|b: int| 0 <= b < r1.len() && r1[b].index == y;
                assert(r1[b] == listing_entry(c, f, y));
                if b < j {
                    assert(r1[b] == r2[b]);
                    assert(number_before(r2[b], r2[j]));
                } else {
                    assert(number_before(r1[j], r1[b]));
                }
            }
        }
    }
}

/// Listing final scores by sequence number is repeatable: any two listings of the same
/// candidates and final scores are equal, element order included.
pub proof fn lemma_listing_unique(
    c: Seq<Candidate>,
    f: Seq<FinalScore>,
    r1: Seq<CandidateFinal>,
    r2: Seq<CandidateFinal>,
)
    requires
        listed_by_number(c, f, r1),
        listed_by_number(c, f, r2),
    ensures
        r1 == r2,
{
    lemma_listings_agree_up_to(c, f, r1, r2, r1.len() as int);
    assert(r1 =~= r2);
}

} // verus!
