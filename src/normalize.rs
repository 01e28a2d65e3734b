//! Per candidate: weighted sums across an event's categories, normalized to a 0–100 scale.
use vstd::prelude::*;

use crate::aggregate::{
    aggregate_entries, entries_max, entries_score, lemma_entries_score_le_max,
    lemma_no_entries_no_contribution, CategoryTotal,
};
use crate::model::{event_categories, has_candidate, matching_entries, Category, ScoreEntry, Snapshot};
use crate::ScoreError;

verus! {

/// A candidate's final score: hundredths of a point on a 0–100 scale, or no score at all
/// where nothing could be scored.
#[derive(Debug, Clone, Copy, PartialEq, Eq, Structural)]
pub enum FinalScore {
    Score(u32),
    Indeterminate,
}

impl View for FinalScore {
    type V = Option<nat>;

    open spec fn view(&self) -> Option<nat> {
        match self {
            FinalScore::Score(v) => Some(*v as nat),
            FinalScore::Indeterminate => None,
        }
    }
}

/// Rounds a value in ten-thousandths to hundredths, halves upward.
pub open spec fn round_hundredths(x: nat) -> nat {
    (x + 50) / 100
}

/// `ws / wm * 100` in hundredths of a point, rounded half upward; none where `wm` is zero.
pub open spec fn final_ratio(ws: nat, wm: nat) -> Option<nat> {
    if wm == 0 {
        None
    } else {
        Some((ws * 20000 + wm) / (2 * wm))
    }
}

/// Sum of the rounded weighted scores of a sequence of totals.
pub open spec fn rounded_score_sum(t: Seq<CategoryTotal>) -> nat
    decreases t.len(),
{
    if t.len() == 0 {
        0
    } else {
        rounded_score_sum(t.drop_last()) + round_hundredths(t.last().weighted_score as nat)
    }
}

/// Sum of the rounded weighted maxima of a sequence of totals.
pub open spec fn rounded_max_sum(t: Seq<CategoryTotal>) -> nat
    decreases t.len(),
{
    if t.len() == 0 {
        0
    } else {
        rounded_max_sum(t.drop_last()) + round_hundredths(t.last().weighted_max as nat)
    }
}

/// A candidate's weighted score in one category, in ten-thousandths.
pub open spec fn category_weighted_score(s: Seq<ScoreEntry>, candidate_id: u128, c: Category) -> nat {
    entries_score(matching_entries(s, candidate_id, c.id)) * (c.weight as nat)
}

/// A candidate's weighted maximum in one category, in ten-thousandths.
pub open spec fn category_weighted_max(s: Seq<ScoreEntry>, candidate_id: u128, c: Category) -> nat {
    entries_max(matching_entries(s, candidate_id, c.id)) * (c.weight as nat)
}

/// Sum over `cats` of the candidate's weighted scores, each rounded to hundredths first.
pub open spec fn weighted_score_sum(cats: Seq<Category>, s: Seq<ScoreEntry>, candidate_id: u128) -> nat
    decreases cats.len(),
{
    if cats.len() == 0 {
        0
    } else {
        weighted_score_sum(cats.drop_last(), s, candidate_id) + round_hundredths(
            category_weighted_score(s, candidate_id, cats.last()),
        )
    }
}

/// Sum over `cats` of the candidate's weighted maxima, each rounded to hundredths first.
pub open spec fn weighted_max_sum(cats: Seq<Category>, s: Seq<ScoreEntry>, candidate_id: u128) -> nat
    decreases cats.len(),
{
    if cats.len() == 0 {
        0
    } else {
        weighted_max_sum(cats.drop_last(), s, candidate_id) + round_hundredths(
            category_weighted_max(s, candidate_id, cats.last()),
        )
    }
}

/// The final score of a candidate in an event of the snapshot.
pub open spec fn final_score_spec(snapshot: &Snapshot, candidate_id: u128, event_id: u128) -> Option<
    nat,
> {
    let cats = event_categories(snapshot.categories@, event_id);
    final_ratio(
        weighted_score_sum(cats, snapshot.scores@, candidate_id),
        weighted_max_sum(cats, snapshot.scores@, candidate_id),
    )
}

/// The weighted maximum of a candidate in an event fits the arithmetic of the normalizer.
pub open spec fn sums_fit(snapshot: &Snapshot, candidate_id: u128, event_id: u128) -> bool {
    weighted_max_sum(event_categories(snapshot.categories@, event_id), snapshot.scores@, candidate_id)
        <= u64::MAX
}

proof fn lemma_round_monotone(a: nat, b: nat)
    requires
        a <= b,
    ensures
        round_hundredths(a) <= round_hundredths(b),
{
    assert((a + 50) / 100 <= (b + 50) / 100) by (nonlinear_arith)
        requires
            a <= b,
    ;
}

proof fn lemma_rounded_score_le_max(t: Seq<CategoryTotal>)
    requires
        forall|k: int| 0 <= k < t.len() ==> (#[trigger] t[k]).wf(),
    ensures
        rounded_score_sum(t) <= rounded_max_sum(t),
    decreases t.len(),
{
    if t.len() > 0 {
        lemma_rounded_score_le_max(t.drop_last());
        lemma_round_monotone(t.last().weighted_score as nat, t.last().weighted_max as nat);
    }
}

proof fn lemma_rounded_max_prefix(t: Seq<CategoryTotal>, i: int)
    requires
        0 <= i <= t.len(),
    ensures
        rounded_max_sum(t.take(i)) <= rounded_max_sum(t),
        rounded_score_sum(t.take(i)) <= rounded_score_sum(t),
    decreases t.len(),
{
    if i == t.len() {
        assert(t.take(i) =~= t);
    } else {
        assert(t.drop_last().take(i) =~= t.take(i));
        lemma_rounded_max_prefix(t.drop_last(), i);
    }
}

proof fn lemma_totals_match_categories(t: Seq<CategoryTotal>, cats: Seq<Category>, s: Seq<ScoreEntry>, candidate_id: u128)
    requires
        t.len() == cats.len(),
        forall|k: int|
            0 <= k < t.len() ==> (#[trigger] t[k]).weighted_score == category_weighted_score(
                s,
                candidate_id,
                cats[k],
            ) && t[k].weighted_max == category_weighted_max(s, candidate_id, cats[k]),
    ensures
        rounded_score_sum(t) == weighted_score_sum(cats, s, candidate_id),
        rounded_max_sum(t) == weighted_max_sum(cats, s, candidate_id),
    decreases t.len(),
{
    if t.len() > 0 {
        let (t0, c0) = (t.drop_last(), cats.drop_last());
        assert forall|k: int| 0 <= k < t0.len() implies (#[trigger] t0[k]).weighted_score
            == category_weighted_score(s, candidate_id, c0[k]) && t0[k].weighted_max
            == category_weighted_max(s, candidate_id, c0[k]) by {
            assert(t0[k] == t[k] && c0[k] == cats[k]);
        }
        lemma_totals_match_categories(t0, c0, s, candidate_id);
    }
}

proof fn lemma_matching_entries_wf(s: Seq<ScoreEntry>, candidate_id: u128, category_id: u128)
    requires
        forall|i: int| 0 <= i < s.len() ==> #[trigger] s[i].score <= s[i].max,
    ensures
        forall|k: int|
            0 <= k < matching_entries(s, candidate_id, category_id).len() ==> #[trigger] matching_entries(
                s,
                candidate_id,
                category_id,
            )[k].score <= matching_entries(s, candidate_id, category_id)[k].max,
    decreases s.len(),
{
    if s.len() > 0 {
        let s0 = s.drop_last();
        assert forall|i: int| 0 <= i < s0.len() implies #[trigger] s0[i].score <= s0[i].max by {
            assert(s0[i] == s[i]);
        }
        lemma_matching_entries_wf(s0, candidate_id, category_id);
        assert(s.last() == s[s.len() - 1]);
    }
}

/// Sums the rounded weighted scores and maxima of `totals` and normalizes their ratio.
pub fn normalize(totals: &Vec<CategoryTotal>) -> (f: FinalScore)
    requires
        forall|k: int| 0 <= k < totals.len() ==> (#[trigger] totals[k]).wf(),
        rounded_max_sum(totals@) <= u64::MAX,
    ensures
        f@ == final_ratio(rounded_score_sum(totals@), rounded_max_sum(totals@)),
        f == FinalScore::Indeterminate <==> rounded_max_sum(totals@) == 0,
        f matches FinalScore::Score(v) ==> v <= 10000,
{
    let mut ws: u128 = 0;
    let mut wm: u128 = 0;
    let n = totals.len();
    proof {
        lemma_rounded_score_le_max(totals@);
    }
    for i in 0..n
        invariant
            n == totals.len(),
            forall|k: int| 0 <= k < totals.len() ==> (#[trigger] totals[k]).wf(),
            rounded_score_sum(totals@) <= rounded_max_sum(totals@) <= u64::MAX,
            ws == rounded_score_sum(totals@.take(i as int)),
            wm == rounded_max_sum(totals@.take(i as int)),
    {
        proof {
            assert(totals@.take(i + 1).drop_last() =~= totals@.take(i as int));
            lemma_rounded_max_prefix(totals@, i + 1);
        }
        let t = totals[i];
        ws = ws + (t.weighted_score / 2 + 25) / 50;
        assert((t.weighted_score / 2 + 25) / 50 == round_hundredths(t.weighted_score as nat));
        wm = wm + (t.weighted_max / 2 + 25) / 50;
        assert((t.weighted_max / 2 + 25) / 50 == round_hundredths(t.weighted_max as nat));
    }
    proof {
        assert(totals@.take(n as int) =~= totals@);
    }
    if wm == 0 {
        FinalScore::Indeterminate
    } else {
        let v = (ws * 20000 + wm) / (2 * wm);
        proof {
            let (a, b) = (ws as int, wm as int);
            assert((a * 20000 + b) / (2 * b) <= 10000) by (nonlinear_arith)
                requires
                    0 <= a <= b,
                    b > 0,
            ;
        }
        FinalScore::Score(v as u32)
    }
}

/// The final score of a candidate in an event, from the snapshot's categories and entries.
pub fn compute_final_score(snapshot: &Snapshot, candidate_id: u128, event_id: u128) -> (r: Result<
    FinalScore,
    ScoreError,
>)
    requires
        snapshot.wf(),
        sums_fit(snapshot, candidate_id, event_id),
    ensures
        match r {
            Ok(f) => {
                &&& snapshot.events@.contains(event_id)
                &&& has_candidate(snapshot.candidates@, candidate_id)
                &&& f@ == final_score_spec(snapshot, candidate_id, event_id)
                &&& (f == FinalScore::Indeterminate <==> weighted_max_sum(
                    event_categories(snapshot.categories@, event_id),
                    snapshot.scores@,
                    candidate_id,
                ) == 0)
                &&& f matches FinalScore::Score(v) ==> v <= 10000
            },
            Err(e) => e == ScoreError::NotFound && !(snapshot.events@.contains(event_id)
                && has_candidate(snapshot.candidates@, candidate_id)),
        },
{
    if !snapshot.contains_event(event_id) || !snapshot.contains_candidate(candidate_id) {
        return Err(ScoreError::NotFound);
    }
    Ok(final_score_of(snapshot, candidate_id, event_id))
}

/// The final score of a candidate in an event, whether or not either is listed in the snapshot.
pub(crate) fn final_score_of(snapshot: &Snapshot, candidate_id: u128, event_id: u128) -> (f: FinalScore)
    requires
        snapshot.wf(),
        sums_fit(snapshot, candidate_id, event_id),
    ensures
        f@ == final_score_spec(snapshot, candidate_id, event_id),
        f == FinalScore::Indeterminate <==> weighted_max_sum(
            event_categories(snapshot.categories@, event_id),
            snapshot.scores@,
            candidate_id,
        ) == 0,
        f matches FinalScore::Score(v) ==> v <= 10000,
{
    let ghost cats = event_categories(snapshot.categories@, event_id);
    let categories = match snapshot.event_categories(event_id) {
        Ok(v) => v,
        Err(_) => Vec::new(),
    };
    assert(categories@ =~= cats);
    let mut totals: Vec<CategoryTotal> = Vec::new();
    let n = categories.len();
    for i in 0..n
        invariant
            n == categories.len(),
            categories@ == cats,
            snapshot.wf(),
            totals.len() == i,
            forall|k: int|
                0 <= k < i ==> (#[trigger] totals[k]).weighted_score == category_weighted_score(
                    snapshot.scores@,
                    candidate_id,
                    cats[k],
                ) && totals[k].weighted_max == category_weighted_max(
                    snapshot.scores@,
                    candidate_id,
                    cats[k],
                ) && totals[k].wf(),
    {
        let c = categories[i];
        let entries = snapshot.entries_for(candidate_id, c.id);
        let t = aggregate_entries(&entries, c.weight);
        proof {
            lemma_matching_entries_wf(snapshot.scores@, candidate_id, c.id);
            lemma_entries_score_le_max(entries@);
            let (a, b, w) = (entries_score(entries@) as int, entries_max(entries@) as int, c.weight as int);
            assert(a * w <= b * w) by (nonlinear_arith)
                requires
                    a <= b,
                    0 <= w,
            ;
        }
        totals.push(t);
    }
    proof {
        lemma_totals_match_categories(totals@, cats, snapshot.scores@, candidate_id);
    }
    normalize(&totals)
}

/// `s2` is `s1` with some scores raised and everything else unchanged.
pub open spec fn scores_raised(s1: Seq<ScoreEntry>, s2: Seq<ScoreEntry>) -> bool {
    &&& s1.len() == s2.len()
    &&& forall|i: int|
        0 <= i < s1.len() ==> {
            &&& (#[trigger] s2[i]).candidate_id == s1[i].candidate_id
            &&& s2[i].category_id == s1[i].category_id
            &&& s2[i].max == s1[i].max
            &&& s2[i].score >= s1[i].score
        }
}

proof fn lemma_matching_raised(s1: Seq<ScoreEntry>, s2: Seq<ScoreEntry>, candidate_id: u128, category_id: u128)
    requires
        scores_raised(s1, s2),
    ensures
        entries_score(matching_entries(s1, candidate_id, category_id)) <= entries_score(
            matching_entries(s2, candidate_id, category_id),
        ),
        entries_max(matching_entries(s1, candidate_id, category_id)) == entries_max(
            matching_entries(s2, candidate_id, category_id),
        ),
    decreases s1.len(),
{
    if s1.len() > 0 {
        let (a, b) = (s1.drop_last(), s2.drop_last());
        assert forall|i: int| 0 <= i < a.len() implies {
            &&& (#[trigger] b[i]).candidate_id == a[i].candidate_id
            &&& b[i].category_id == a[i].category_id
            &&& b[i].max == a[i].max
            &&& b[i].score >= a[i].score
        } by {
            assert(a[i] == s1[i] && b[i] == s2[i]);
        }
        lemma_matching_raised(a, b, candidate_id, category_id);
        assert(s1.last() == s1[s1.len() - 1] && s2.last() == s2[s2.len() - 1]);
        let (m1, m2) = (matching_entries(a, candidate_id, category_id), matching_entries(b, candidate_id, category_id));
        if s1.last().candidate_id == candidate_id && s1.last().category_id == category_id {
            assert(matching_entries(s1, candidate_id, category_id).drop_last() == m1);
            assert(matching_entries(s2, candidate_id, category_id).drop_last() == m2);
        }
    }
}

proof fn lemma_sums_raised(cats: Seq<Category>, s1: Seq<ScoreEntry>, s2: Seq<ScoreEntry>, candidate_id: u128)
    requires
        scores_raised(s1, s2),
    ensures
        weighted_score_sum(cats, s1, candidate_id) <= weighted_score_sum(cats, s2, candidate_id),
        weighted_max_sum(cats, s1, candidate_id) == weighted_max_sum(cats, s2, candidate_id),
    decreases cats.len(),
{
    if cats.len() > 0 {
        lemma_sums_raised(cats.drop_last(), s1, s2, candidate_id);
        let c = cats.last();
        lemma_matching_raised(s1, s2, candidate_id, c.id);
        let x = entries_score(matching_entries(s1, candidate_id, c.id)) as int;
        let y = entries_score(matching_entries(s2, candidate_id, c.id)) as int;
        let w = c.weight as int;
        assert(x * w <= y * w) by (nonlinear_arith)
            requires
                x <= y,
                0 <= w,
        ;
        lemma_round_monotone(
            category_weighted_score(s1, candidate_id, c),
            category_weighted_score(s2, candidate_id, c),
        );
    }
}

/// Raising the score of one entry, everything else held fixed, never lowers any candidate's
/// final score, and leaves a score indeterminate exactly where it was.
pub proof fn lemma_final_score_monotone(
    s1: &Snapshot,
    s2: &Snapshot,
    k: int,
    new_score: u32,
    candidate_id: u128,
    event_id: u128,
)
    requires
        0 <= k < s1.scores.len(),
        new_score >= s1.scores[k].score,
        s2.categories@ == s1.categories@,
        s2.scores@ == s1.scores@.update(k, ScoreEntry { score: new_score, ..s1.scores[k] }),
    ensures
        final_score_spec(s1, candidate_id, event_id) is None <==> final_score_spec(
            s2,
            candidate_id,
            event_id,
        ) is None,
        final_score_spec(s1, candidate_id, event_id) matches Some(a) ==> final_score_spec(
            s2,
            candidate_id,
            event_id,
        ) matches Some(b) && a <= b,
{
    assert(scores_raised(s1.scores@, s2.scores@));
    let cats = event_categories(s1.categories@, event_id);
    lemma_sums_raised(cats, s1.scores@, s2.scores@, candidate_id);
    let a = weighted_score_sum(cats, s1.scores@, candidate_id) as int;
    let b = weighted_score_sum(cats, s2.scores@, candidate_id) as int;
    let m = weighted_max_sum(cats, s1.scores@, candidate_id) as int;
    if m > 0 {
        assert((a * 20000 + m) / (2 * m) <= (b * 20000 + m) / (2 * m)) by (nonlinear_arith)
            requires
                0 <= a <= b,
                m > 0,
        ;
    }
}

proof fn lemma_weighted_max_prefix(cats: Seq<Category>, s: Seq<ScoreEntry>, candidate_id: u128, i: int)
    requires
        0 <= i <= cats.len(),
    ensures
        weighted_max_sum(cats.take(i), s, candidate_id) <= weighted_max_sum(cats, s, candidate_id),
    decreases cats.len(),
{
    if i == cats.len() {
        assert(cats.take(i) =~= cats);
    } else {
        assert(cats.drop_last().take(i) =~= cats.take(i));
        lemma_weighted_max_prefix(cats.drop_last(), s, candidate_id, i);
    }
}

/// Checks that a candidate's weighted maximum in an event fits the normalizer's arithmetic.
pub fn sums_fit_check(snapshot: &Snapshot, candidate_id: u128, event_id: u128) -> (r: bool)
    ensures
        r == sums_fit(snapshot, candidate_id, event_id),
{
    let ghost cats = event_categories(snapshot.categories@, event_id);
    let categories = match snapshot.event_categories(event_id) {
        Ok(v) => v,
        Err(_) => Vec::new(),
    };
    assert(categories@ =~= cats);
    let mut acc: u128 = 0;
    let n = categories.len();
    for i in 0..n
        invariant
            n == categories.len(),
            categories@ == cats,
            cats == event_categories(snapshot.categories@, event_id),
            acc == weighted_max_sum(cats.take(i as int), snapshot.scores@, candidate_id),
            acc <= u64::MAX,
    {
        proof {
            assert(cats.take(i + 1).drop_last() =~= cats.take(i as int));
            assert(cats.take(i + 1).last() == cats[i as int]);
        }
        let c = categories[i];
        let entries = snapshot.entries_for(candidate_id, c.id);
        let t = aggregate_entries(&entries, c.weight);
        acc = acc + (t.weighted_max / 2 + 25) / 50;
        assert((t.weighted_max / 2 + 25) / 50 == round_hundredths(t.weighted_max as nat));
        if acc > 0xffff_ffff_ffff_ffff {
            proof {
                lemma_weighted_max_prefix(cats, snapshot.scores@, candidate_id, i + 1);
            }
            return false;
        }
    }
    proof {
        assert(cats.take(n as int) =~= cats);
    }
    true
}

/// A total whose weighted score and weighted maximum are both zero changes neither rounded sum,
/// so leaving it out gives the same final score.
pub proof fn lemma_zero_total_excluded(t: Seq<CategoryTotal>, k: int)
    requires
        0 <= k < t.len(),
        t[k].weighted_score == 0,
        t[k].weighted_max == 0,
    ensures
        rounded_score_sum(t) == rounded_score_sum(t.remove(k)),
        rounded_max_sum(t) == rounded_max_sum(t.remove(k)),
        final_ratio(rounded_score_sum(t), rounded_max_sum(t)) == final_ratio(
            rounded_score_sum(t.remove(k)),
            rounded_max_sum(t.remove(k)),
        ),
    decreases t.len(),
{
    if k == t.len() - 1 {
        assert(t.remove(k) =~= t.drop_last());
    } else {
        assert(t.remove(k).drop_last() =~= t.drop_last().remove(k));
        assert(t.remove(k).last() == t.last());
        lemma_zero_total_excluded(t.drop_last(), k);
    }
}

/// Raising the weighted score of one total, everything else unchanged, never lowers the
/// normalized result and leaves the weighted maximum sum as it was.
pub proof fn lemma_normalize_monotone(t1: Seq<CategoryTotal>, t2: Seq<CategoryTotal>, k: int)
    requires
        0 <= k < t1.len(),
        t2 == t1.update(k, CategoryTotal { weighted_score: t2[k].weighted_score, ..t1[k] }),
        t2[k].weighted_score >= t1[k].weighted_score,
    ensures
        rounded_max_sum(t1) == rounded_max_sum(t2),
        rounded_score_sum(t1) <= rounded_score_sum(t2),
        final_ratio(rounded_score_sum(t1), rounded_max_sum(t1)) matches Some(a) ==> final_ratio(
            rounded_score_sum(t2),
            rounded_max_sum(t2),
        ) matches Some(b) && a <= b,
        final_ratio(rounded_score_sum(t1), rounded_max_sum(t1)) is None ==> final_ratio(
            rounded_score_sum(t2),
            rounded_max_sum(t2),
        ) is None,
    decreases t1.len(),
{
    if k == t1.len() - 1 {
        assert(t2.drop_last() =~= t1.drop_last());
        lemma_round_monotone(t1[k].weighted_score as nat, t2[k].weighted_score as nat);
    } else {
        let (a1, a2) = (t1.drop_last(), t2.drop_last());
        assert(a2 =~= a1.update(k, CategoryTotal { weighted_score: t2[k].weighted_score, ..t1[k] }));
        assert(a2[k] == t2[k]);
        lemma_normalize_monotone(a1, a2, k);
    }
    let (a, b, m) = (rounded_score_sum(t1) as int, rounded_score_sum(t2) as int, rounded_max_sum(t1) as int);
    if m > 0 {
        assert((a * 20000 + m) / (2 * m) <= (b * 20000 + m) / (2 * m)) by (nonlinear_arith)
            requires
                0 <= a <= b,
                m > 0,
        ;
    }
}

/// An event category in which the candidate has no entry contributes nothing: taking it out of
/// the categories leaves both weighted sums, and so the final score, unchanged.
pub proof fn lemma_empty_category_excluded(
    cats: Seq<Category>,
    s: Seq<ScoreEntry>,
    candidate_id: u128,
    k: int,
)
    requires
        0 <= k < cats.len(),
        forall|i: int|
            0 <= i < s.len() ==> !((#[trigger] s[i]).candidate_id == candidate_id && s[i].category_id
                == cats[k].id),
    ensures
        weighted_score_sum(cats, s, candidate_id) == weighted_score_sum(cats.remove(k), s, candidate_id),
        weighted_max_sum(cats, s, candidate_id) == weighted_max_sum(cats.remove(k), s, candidate_id),
        final_ratio(weighted_score_sum(cats, s, candidate_id), weighted_max_sum(cats, s, candidate_id))
            == final_ratio(
            weighted_score_sum(cats.remove(k), s, candidate_id),
            weighted_max_sum(cats.remove(k), s, candidate_id),
        ),
    decreases cats.len(),
{
    if k == cats.len() - 1 {
        assert(cats.remove(k) =~= cats.drop_last());
        lemma_no_entries_no_contribution(s, candidate_id, cats[k].id, cats[k].weight);
        assert(cats.last() == cats[k]);
    } else {
        assert(cats.remove(k).drop_last() =~= cats.drop_last().remove(k));
        assert(cats.remove(k).last() == cats.last());
        assert(cats.drop_last()[k] == cats[k]);
        lemma_empty_category_excluded(cats.drop_last(), s, candidate_id, k);
    }
}

} // verus!
