//! Figures that score reports show beside the final scores.
use vstd::prelude::*;

use crate::model::{Category, ScoreEntry, Snapshot};

verus! {

/// Sum of the scores one judge gave one candidate in one category.
pub open spec fn judge_score(s: Seq<ScoreEntry>, candidate_id: u128, category_id: u128, judge_id: u128) -> nat
    decreases s.len(),
{
    if s.len() == 0 {
        0
    } else {
        let e = s.last();
        judge_score(s.drop_last(), candidate_id, category_id, judge_id) + if e.candidate_id
            == candidate_id && e.category_id == category_id && e.judge_id == judge_id {
            e.score as nat
        } else {
            0
        }
    }
}

/// The total that one judge gave one candidate in one category, over all criteria.
pub fn judge_total(snapshot: &Snapshot, candidate_id: u128, category_id: u128, judge_id: u128) -> (r: u128)
    ensures
        r == judge_score(snapshot.scores@, candidate_id, category_id, judge_id),
{
    let mut r: u128 = 0;
    let n = snapshot.scores.len();
    for i in 0..n
        invariant
            n == snapshot.scores.len(),
            r == judge_score(snapshot.scores@.take(i as int), candidate_id, category_id, judge_id),
            r <= i * 0xffff_ffff,
    {
        proof {
            assert(snapshot.scores@.take(i + 1).drop_last() =~= snapshot.scores@.take(i as int));
        }
        let e = snapshot.scores[i];
        if e.candidate_id == candidate_id && e.category_id == category_id && e.judge_id == judge_id {
            r = r + e.score as u128;
        }
    }
    proof {
        assert(snapshot.scores@.take(n as int) =~= snapshot.scores@);
    }
    r
}

/// `r` is the position of the first greatest value where some value is above zero, and none
/// where every value is zero.
pub open spec fn first_best(values: Seq<u128>, r: Option<usize>) -> bool {
    match r {
        Some(i) => {
            &&& i < values.len()
            &&& values[i as int] > 0
            &&& forall|j: int| 0 <= j < values.len() ==> values[j] <= values[i as int]
            &&& forall|j: int| 0 <= j < i ==> values[j] < values[i as int]
        },
        None => forall|j: int| 0 <= j < values.len() ==> values[j] == 0,
    }
}

/// The position of the first greatest value, where some value is above zero.
pub fn best_position(values: &Vec<u128>) -> (r: Option<usize>)
    ensures
        first_best(values@, r),
{
    let mut best: Option<usize> = None;
    let mut high: u128 = 0;
    let n = values.len();
    for i in 0..n
        invariant
            n == values.len(),
            match best {
                Some(b) => b < i && high == values[b as int] && high > 0,
                None => high == 0,
            },
            forall|j: int| 0 <= j < i ==> values[j] <= high,
            best matches Some(b) ==> forall|j: int| 0 <= j < b ==> values[j] < high,
    {
        if values[i] > high {
            high = values[i];
            best = Some(i);
        }
    }
    best
}

/// The row of a score table to highlight: in an award category, the first row with the greatest
/// weighted score above zero; in any other category, none.
pub fn highlight_position(weighted: &Vec<u128>, award_category: bool) -> (r: Option<usize>)
    ensures
        award_category ==> first_best(weighted@, r),
        !award_category ==> r is None,
{
    if award_category {
        best_position(weighted)
    } else {
        None
    }
}

/// Sum over `judges` of what each gave one candidate in one category.
pub open spec fn judges_score(
    s: Seq<ScoreEntry>,
    candidate_id: u128,
    category_id: u128,
    judges: Seq<u128>,
) -> nat
    decreases judges.len(),
{
    if judges.len() == 0 {
        0
    } else {
        judges_score(s, candidate_id, category_id, judges.drop_last()) + judge_score(
            s,
            candidate_id,
            category_id,
            judges.last(),
        )
    }
}

proof fn lemma_judges_score_prefix(
    s: Seq<ScoreEntry>,
    candidate_id: u128,
    category_id: u128,
    judges: Seq<u128>,
    i: int,
)
    requires
        0 <= i <= judges.len(),
    ensures
        judges_score(s, candidate_id, category_id, judges.take(i)) <= judges_score(
            s,
            candidate_id,
            category_id,
            judges,
        ),
    decreases judges.len(),
{
    if i == judges.len() {
        assert(judges.take(i) =~= judges);
    } else {
        assert(judges.drop_last().take(i) =~= judges.take(i));
        lemma_judges_score_prefix(s, candidate_id, category_id, judges.drop_last(), i);
    }
}

/// The total that the listed judges gave one candidate in one category, and that total times
/// the category's weight (in ten-thousandths); none where either does not fit in `u128`.
pub fn listed_judges_total(
    snapshot: &Snapshot,
    candidate_id: u128,
    category: Category,
    judges: &Vec<u128>,
) -> (r: Option<(u128, u128)>)
    ensures
        match r {
            Some((total, weighted)) => {
                &&& total == judges_score(snapshot.scores@, candidate_id, category.id, judges@)
                &&& weighted == total * category.weight
            },
            None => {
                let total = judges_score(snapshot.scores@, candidate_id, category.id, judges@);
                total > u128::MAX || total * category.weight > u128::MAX
            },
        },
{
    let ghost total_spec = judges_score(snapshot.scores@, candidate_id, category.id, judges@);
    let mut acc: u128 = 0;
    let n = judges.len();
    for i in 0..n
        invariant
            n == judges.len(),
            total_spec == judges_score(snapshot.scores@, candidate_id, category.id, judges@),
            acc == judges_score(snapshot.scores@, candidate_id, category.id, judges@.take(i as int)),
    {
        proof {
            assert(judges@.take(i + 1).drop_last() =~= judges@.take(i as int));
            assert(judges@.take(i + 1).last() == judges@[i as int]);
        }
        let t = judge_total(snapshot, candidate_id, category.id, judges[i]);
        if acc > u128::MAX - t {
            proof {
                lemma_judges_score_prefix(snapshot.scores@, candidate_id, category.id, judges@, i + 1);
            }
            return None;
        }
        acc = acc + t;
    }
    proof {
        assert(judges@.take(n as int) =~= judges@);
    }
    if category.weight != 0 && acc > u128::MAX / category.weight as u128 {
        proof {
            let (a, w) = (acc as int, category.weight as int);
            assert(a * w > u128::MAX) by (nonlinear_arith)
                requires
                    w >= 1,
                    a > (u128::MAX as int) / w,
            ;
        }
        return None;
    }
    proof {
        let (a, w) = (acc as int, category.weight as int);
        assert(a * w <= u128::MAX) by (nonlinear_arith)
            requires
                w == 0 || a <= (u128::MAX as int) / w,
                a >= 0,
                w >= 0,
        ;
    }
    Some((acc, acc * category.weight as u128))
}

} // verus!
