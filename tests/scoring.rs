use scoring_engine::aggregate::{aggregate_category, aggregate_entries};
use scoring_engine::leaderboard::{
    build_leaderboard, final_scores, final_scores_by_number, order_by_number, rank_candidates,
    unranked_candidates, Group, GroupBy, Leaderboard, LeaderboardEntry,
};
use scoring_engine::model::{Candidate, Category, ScoreEntry, Snapshot};
use scoring_engine::normalize::{compute_final_score, normalize, FinalScore};
use scoring_engine::report::{best_position, highlight_position, judge_total, listed_judges_total};
use scoring_engine::sync::{plan_updates, record_final_scores, sync_plan, ScoreUpdate};
use scoring_engine::ScoreError;

const EVENT: u128 = 100;

fn entry(candidate_id: u128, category_id: u128, judge_id: u128, score: u32, max: u32) -> ScoreEntry {
    ScoreEntry { candidate_id, category_id, judge_id, criteria_id: None, score, max }
}

fn candidate(id: u128, number: i32, gender: i32) -> Candidate {
    Candidate { id, number, gender, final_score: None }
}

fn category(id: u128, weight: u32) -> Category {
    Category { id, event_id: EVENT, weight }
}

fn snapshot(categories: Vec<Category>, candidates: Vec<Candidate>, scores: Vec<ScoreEntry>) -> Snapshot {
    Snapshot { events: vec![EVENT], categories, candidates, scores }
}

/// One category of weight 1.0 and one entry out of 100 per candidate: final score == points.
fn single_category_board(points: &[(u128, i32, i32, u32)]) -> Snapshot {
    let candidates = points.iter().map(|&(id, number, gender, _)| candidate(id, number, gender)).collect();
    let scores = points.iter().map(|&(id, _, _, p)| entry(id, 1, 1, p, 100)).collect();
    snapshot(vec![category(1, 10000)], candidates, scores)
}

fn ids(entries: &[LeaderboardEntry]) -> Vec<u128> {
    entries.iter().map(|e| e.candidate_id).collect()
}

fn ranks(entries: &[LeaderboardEntry]) -> Vec<usize> {
    entries.iter().map(|e| e.rank).collect()
}

fn overall(snap: &Snapshot, top_n: Option<usize>) -> Leaderboard {
    build_leaderboard(snap, EVENT, GroupBy::Overall, top_n).unwrap()
}

#[test]
fn single_category_single_judge() {
    let snap = snapshot(vec![category(1, 5000)], vec![candidate(7, 1, 1)], vec![entry(7, 1, 1, 80, 100)]);
    let t = aggregate_category(&snap, 7, 1).unwrap();
    assert_eq!(t.total_score, 80);
    assert_eq!(t.total_max, 100);
    assert_eq!(t.weighted_score, 400_000);
    assert_eq!(t.weighted_max, 500_000);
    assert_eq!(compute_final_score(&snap, 7, EVENT), Ok(FinalScore::Score(8000)));
}

#[test]
fn two_weighted_categories() {
    let snap = snapshot(
        vec![category(1, 6000), category(2, 4000)],
        vec![candidate(7, 1, 1)],
        vec![entry(7, 1, 1, 90, 100), entry(7, 2, 1, 70, 100)],
    );
    assert_eq!(aggregate_category(&snap, 7, 1).unwrap().weighted_score, 540_000);
    assert_eq!(aggregate_category(&snap, 7, 2).unwrap().weighted_score, 280_000);
    assert_eq!(compute_final_score(&snap, 7, EVENT), Ok(FinalScore::Score(8200)));
}

#[test]
fn top_two_selection_breaks_ties_by_number() {
    let snap = single_category_board(&[(1, 1, 1, 70), (2, 2, 1, 95), (3, 3, 1, 95), (4, 4, 1, 60)]);
    let full = overall(&snap, None);
    assert_eq!(ids(&full.groups[0].entries), vec![2, 3, 1, 4]);
    assert_eq!(ranks(&full.groups[0].entries), vec![1, 2, 3, 4]);
    let top = overall(&snap, Some(2));
    assert_eq!(ids(&top.groups[0].entries), vec![2, 3]);
    assert_eq!(ranks(&top.groups[0].entries), vec![1, 2]);
    assert_eq!(top.groups[0].entries[0].final_score, 9500);
}

#[test]
fn category_without_entries_contributes_nothing() {
    let snap = snapshot(
        vec![category(1, 5000), category(2, 5000)],
        vec![candidate(7, 1, 1)],
        vec![entry(7, 1, 1, 30, 40)],
    );
    let t = aggregate_category(&snap, 7, 2).unwrap();
    assert_eq!((t.total_score, t.total_max, t.weighted_score, t.weighted_max), (0, 0, 0, 0));
    // The empty category is excluded, not counted as a zero: 30 / 40 == 75.00.
    assert_eq!(compute_final_score(&snap, 7, EVENT), Ok(FinalScore::Score(7500)));
    let empty = aggregate_entries(&Vec::new(), 9000);
    assert_eq!((empty.weighted_score, empty.weighted_max), (0, 0));
}

#[test]
fn no_denominator_is_indeterminate() {
    // No category in the event at all.
    let snap = snapshot(vec![], vec![candidate(7, 1, 1)], vec![]);
    assert_eq!(compute_final_score(&snap, 7, EVENT), Ok(FinalScore::Indeterminate));
    // Categories whose weights are all zero.
    let snap = snapshot(vec![category(1, 0)], vec![candidate(7, 1, 1)], vec![entry(7, 1, 1, 50, 100)]);
    assert_eq!(compute_final_score(&snap, 7, EVENT), Ok(FinalScore::Indeterminate));
    // Categories without any entry for the candidate.
    let snap = snapshot(vec![category(1, 5000)], vec![candidate(7, 1, 1)], vec![]);
    assert_eq!(compute_final_score(&snap, 7, EVENT), Ok(FinalScore::Indeterminate));
}

#[test]
fn indeterminate_candidates_are_listed_unranked() {
    let snap = snapshot(
        vec![category(1, 10000)],
        vec![candidate(1, 1, 1), candidate(2, 2, 1), candidate(3, 3, 0)],
        vec![entry(2, 1, 1, 10, 20)],
    );
    let lb = overall(&snap, None);
    assert_eq!(ids(&lb.groups[0].entries), vec![2]);
    assert_eq!(lb.unranked, vec![1, 3]);
    let finals = final_scores(&snap, EVENT);
    assert_eq!(unranked_candidates(&snap.candidates, &finals), vec![1, 3]);
}

#[test]
fn rebuilding_gives_same_leaderboard() {
    let snap = single_category_board(&[(1, 3, 1, 88), (2, 1, 0, 88), (3, 2, 1, 91), (4, 5, 0, 40)]);
    let first = build_leaderboard(&snap, EVENT, GroupBy::Gender, Some(3)).unwrap();
    let second = build_leaderboard(&snap, EVENT, GroupBy::Gender, Some(3)).unwrap();
    assert_eq!(first, second);
    let first = overall(&snap, None);
    let second = overall(&snap, None);
    assert_eq!(first, second);
}

#[test]
fn raising_a_score_never_lowers_the_final_score() {
    let mut snap = snapshot(
        vec![category(1, 3000), category(2, 7000)],
        vec![candidate(7, 1, 1)],
        vec![entry(7, 1, 1, 10, 50), entry(7, 2, 1, 20, 50), entry(7, 2, 2, 5, 50)],
    );
    let mut previous = 0;
    for raised in 5..=50 {
        snap.scores[2].score = raised;
        match compute_final_score(&snap, 7, EVENT) {
            Ok(FinalScore::Score(v)) => {
                assert!(v >= previous);
                previous = v;
            }
            other => panic!("unexpected {:?}", other),
        }
    }
    assert!(previous > 0);
}

#[test]
fn equal_scores_rank_by_sequence_number() {
    // Listed in the snapshot in reverse number order; the lower number still ranks first.
    let snap = single_category_board(&[(1, 9, 1, 80), (2, 4, 1, 80), (3, 6, 1, 80)]);
    let lb = overall(&snap, None);
    assert_eq!(ids(&lb.groups[0].entries), vec![2, 3, 1]);
    assert_eq!(ranks(&lb.groups[0].entries), vec![1, 2, 3]);
    let again = overall(&snap, None);
    assert_eq!(ids(&again.groups[0].entries), vec![2, 3, 1]);
}

#[test]
fn equal_numbers_keep_snapshot_order() {
    let snap = single_category_board(&[(5, 1, 1, 80), (6, 1, 1, 80)]);
    let lb = overall(&snap, None);
    assert_eq!(ids(&lb.groups[0].entries), vec![5, 6]);
}

#[test]
fn gender_groups_are_ranked_separately() {
    let snap = single_category_board(&[(1, 1, 1, 70), (2, 2, 0, 90), (3, 3, 1, 85), (4, 4, 0, 60), (5, 5, 2, 95)]);
    let lb = build_leaderboard(&snap, EVENT, GroupBy::Gender, None).unwrap();
    assert_eq!(lb.groups.len(), 2);
    assert_eq!(lb.groups[0].group, Group::Male);
    assert_eq!(ids(&lb.groups[0].entries), vec![3, 1]);
    assert_eq!(lb.groups[1].group, Group::Female);
    assert_eq!(ids(&lb.groups[1].entries), vec![5, 2, 4]);
    assert_eq!(ranks(&lb.groups[1].entries), vec![1, 2, 3]);
}

#[test]
fn top_n_edges() {
    let snap = single_category_board(&[(1, 1, 1, 70), (2, 2, 1, 90)]);
    assert!(overall(&snap, Some(0)).groups[0].entries.is_empty());
    assert_eq!(ids(&overall(&snap, Some(10)).groups[0].entries), vec![2, 1]);
    let empty = snapshot(vec![category(1, 10000)], vec![], vec![]);
    let lb = overall(&empty, Some(3));
    assert!(lb.groups[0].entries.is_empty());
    assert!(lb.unranked.is_empty());
}

#[test]
fn rank_candidates_on_given_scores() {
    let cands = vec![candidate(1, 1, 1), candidate(2, 2, 0), candidate(3, 3, 1)];
    let finals = vec![FinalScore::Score(5000), FinalScore::Score(9000), FinalScore::Indeterminate];
    let all = rank_candidates(&cands, &finals, Group::All, None);
    assert_eq!(ids(&all), vec![2, 1]);
    assert_eq!(all[1].index, 0);
    let male = rank_candidates(&cands, &finals, Group::Male, None);
    assert_eq!(ids(&male), vec![1]);
    assert_eq!(male[0].rank, 1);
}

#[test]
fn rounding_happens_per_category_before_summing() {
    // Weighted scores 0.333 and 0.335 round to 0.33 and 0.34 before they are added.
    let totals = vec![
        aggregate_entries(&vec![entry(1, 1, 1, 1, 1)], 3330),
        aggregate_entries(&vec![entry(1, 2, 1, 1, 3)], 3350),
    ];
    assert_eq!(totals[0].weighted_score, 3330);
    assert_eq!(totals[1].weighted_max, 10050);
    // (0.33 + 0.34) / (0.33 + 1.01) * 100 = 50.00
    assert_eq!(normalize(&totals), FinalScore::Score(5000));
}

#[test]
fn final_ratio_rounds_half_up() {
    // 2 / 3 * 100 = 66.666... -> 66.67
    let snap = snapshot(vec![category(1, 10000)], vec![candidate(7, 1, 1)], vec![entry(7, 1, 1, 2, 3)]);
    assert_eq!(compute_final_score(&snap, 7, EVENT), Ok(FinalScore::Score(6667)));
    // 1 / 8 * 100 = 12.5 exactly -> 12.50
    let snap = snapshot(vec![category(1, 10000)], vec![candidate(7, 1, 1)], vec![entry(7, 1, 1, 1, 8)]);
    assert_eq!(compute_final_score(&snap, 7, EVENT), Ok(FinalScore::Score(1250)));
}

#[test]
fn several_judges_and_criteria_are_summed() {
    let snap = snapshot(
        vec![category(1, 2500)],
        vec![candidate(7, 1, 1), candidate(8, 2, 0)],
        vec![
            entry(7, 1, 1, 8, 10),
            entry(7, 1, 1, 9, 10),
            entry(7, 1, 2, 6, 10),
            entry(8, 1, 1, 10, 10),
        ],
    );
    let t = aggregate_category(&snap, 7, 1).unwrap();
    assert_eq!((t.total_score, t.total_max), (23, 30));
    assert_eq!((t.weighted_score, t.weighted_max), (57_500, 75_000));
    assert_eq!(judge_total(&snap, 7, 1, 1), 17);
    assert_eq!(judge_total(&snap, 7, 1, 2), 6);
    assert_eq!(judge_total(&snap, 7, 1, 3), 0);
}

#[test]
fn missing_references_are_not_found() {
    let snap = snapshot(vec![category(1, 5000)], vec![candidate(7, 1, 1)], vec![entry(7, 1, 1, 5, 10)]);
    assert_eq!(aggregate_category(&snap, 8, 1), Err(ScoreError::NotFound));
    assert_eq!(aggregate_category(&snap, 7, 2), Err(ScoreError::NotFound));
    assert_eq!(compute_final_score(&snap, 8, EVENT), Err(ScoreError::NotFound));
    assert_eq!(compute_final_score(&snap, 7, EVENT + 1), Err(ScoreError::NotFound));
    assert_eq!(build_leaderboard(&snap, EVENT + 1, GroupBy::Overall, None), Err(ScoreError::NotFound));
    assert_eq!(snap.event_categories(EVENT + 1), Err(ScoreError::NotFound));
}

#[test]
fn repository_reads_filter_rows() {
    let snap = snapshot(
        vec![category(1, 5000), Category { id: 2, event_id: EVENT + 1, weight: 100 }, category(3, 10)],
        vec![candidate(7, 1, 1)],
        vec![entry(7, 1, 1, 5, 10), entry(8, 1, 1, 6, 10), entry(7, 3, 1, 7, 10), entry(7, 1, 2, 8, 10)],
    );
    let rows = snap.entries_for(7, 1);
    assert_eq!(rows.iter().map(|e| e.score).collect::<Vec<_>>(), vec![5, 8]);
    let cats = snap.event_categories(EVENT).unwrap();
    assert_eq!(cats.iter().map(|c| c.id).collect::<Vec<_>>(), vec![1, 3]);
    assert_eq!(snap.find_category(2).map(|c| c.weight), Some(100));
    assert_eq!(snap.find_category(4), None);
    assert!(snap.contains_candidate(7));
    assert!(!snap.contains_candidate(8));
    assert!(snap.contains_event(EVENT));
}

#[test]
fn sync_writes_only_changed_scores() {
    let mut snap = single_category_board(&[(1, 1, 1, 70), (2, 2, 1, 80), (3, 3, 1, 90)]);
    snap.candidates[0].final_score = Some(7000);
    snap.candidates[1].final_score = Some(1234);
    snap.candidates.push(candidate(4, 4, 1));
    let plan = sync_plan(&snap, EVENT);
    assert_eq!(
        plan,
        vec![
            ScoreUpdate { candidate_id: 2, final_score: Some(8000) },
            ScoreUpdate { candidate_id: 3, final_score: Some(9000) },
        ]
    );
    let finals = final_scores(&snap, EVENT);
    assert_eq!(finals[3], FinalScore::Indeterminate);
    record_final_scores(&mut snap.candidates, &finals);
    assert_eq!(snap.candidates[1].final_score, Some(8000));
    assert_eq!(snap.candidates[3].final_score, None);
    assert!(plan_updates(&snap.candidates, &finals).is_empty());
    assert!(sync_plan(&snap, EVENT).is_empty());
}

#[test]
fn best_position_picks_first_highest() {
    assert_eq!(best_position(&vec![3, 9, 2, 9]), Some(1));
    assert_eq!(best_position(&vec![0, 0]), None);
    assert_eq!(best_position(&vec![]), None);
    assert_eq!(best_position(&vec![0, 4]), Some(1));
}

#[test]
fn listed_judges_total_counts_only_listed_judges() {
    let cat = category(1, 2500);
    let snap = snapshot(
        vec![cat],
        vec![candidate(7, 1, 1)],
        vec![entry(7, 1, 1, 8, 10), entry(7, 1, 1, 9, 10), entry(7, 1, 2, 6, 10), entry(7, 1, 3, 10, 10)],
    );
    // Judge 3 is left out of the table, so its 10 points are not counted.
    assert_eq!(listed_judges_total(&snap, 7, cat, &vec![1, 2]), Some((23, 57_500)));
    assert_eq!(listed_judges_total(&snap, 7, cat, &vec![1, 2, 3]), Some((33, 82_500)));
    assert_eq!(listed_judges_total(&snap, 7, cat, &vec![]), Some((0, 0)));
    assert_eq!(listed_judges_total(&snap, 8, cat, &vec![1]), Some((0, 0)));
}

#[test]
fn highlight_only_in_award_categories() {
    let weighted = vec![40, 90, 90, 10];
    assert_eq!(highlight_position(&weighted, true), Some(1));
    assert_eq!(highlight_position(&weighted, false), None);
    // No row above zero: nothing is highlighted, not the first row.
    assert_eq!(highlight_position(&vec![0, 0, 0], true), None);
}

#[test]
fn final_scores_listed_by_candidate_number() {
    // Snapshot order is gender first; the listing follows candidate numbers.
    let snap = single_category_board(&[(10, 2, 1, 70), (11, 4, 1, 80), (12, 1, 0, 90), (13, 3, 0, 60)]);
    assert!(snap.ids_unique_check());
    let listing = final_scores_by_number(&snap, EVENT);
    assert_eq!(listing.iter().map(|e| e.candidate_id).collect::<Vec<_>>(), vec![12, 10, 13, 11]);
    assert_eq!(listing.iter().map(|e| e.candidate_number).collect::<Vec<_>>(), vec![1, 2, 3, 4]);
    assert_eq!(listing[0].final_score, FinalScore::Score(9000));
    assert_eq!(listing[0].index, 2);
}

#[test]
fn equal_numbers_listed_in_snapshot_order() {
    let cands = vec![candidate(1, 1, 1), candidate(2, 1, 0), candidate(3, 0, 1)];
    let finals = vec![FinalScore::Score(1), FinalScore::Indeterminate, FinalScore::Score(3)];
    let listing = order_by_number(&cands, &finals);
    assert_eq!(listing.iter().map(|e| e.candidate_id).collect::<Vec<_>>(), vec![3, 1, 2]);
    assert_eq!(listing[2].final_score, FinalScore::Indeterminate);
}

#[test]
fn duplicate_candidate_ids_are_detected() {
    let snap = snapshot(vec![], vec![candidate(1, 1, 1), candidate(2, 2, 1), candidate(1, 3, 0)], vec![]);
    assert!(!snap.ids_unique_check());
    let snap = snapshot(vec![], vec![candidate(1, 1, 1), candidate(2, 2, 1)], vec![]);
    assert!(snap.ids_unique_check());
}

#[test]
fn sync_clears_a_stored_score_that_became_indeterminate() {
    // Candidate 7 had 5.00 stored, but every entry of theirs is gone: the score is now
    // indeterminate and the stored number must be cleared, not kept.
    let mut snap = snapshot(
        vec![category(1, 10000)],
        vec![candidate(7, 1, 1), candidate(8, 2, 1)],
        vec![entry(8, 1, 1, 40, 50)],
    );
    snap.candidates[0].final_score = Some(500);
    snap.candidates[1].final_score = Some(8000);
    let plan = sync_plan(&snap, EVENT);
    assert_eq!(plan, vec![ScoreUpdate { candidate_id: 7, final_score: None }]);
    let finals = final_scores(&snap, EVENT);
    record_final_scores(&mut snap.candidates, &finals);
    assert_eq!(snap.candidates[0].final_score, None);
    assert_eq!(snap.candidates[1].final_score, Some(8000));
    assert!(sync_plan(&snap, EVENT).is_empty());
    // An indeterminate candidate with nothing stored needs no write.
    let snap = snapshot(vec![category(1, 10000)], vec![candidate(9, 1, 1)], vec![]);
    assert!(sync_plan(&snap, EVENT).is_empty());
}

#[test]
fn listing_by_number_is_repeatable() {
    let snap = single_category_board(&[(1, 2, 0, 70), (2, 1, 1, 95), (3, 2, 1, 95), (4, 1, 0, 60)]);
    let first = final_scores_by_number(&snap, EVENT);
    let second = final_scores_by_number(&snap, EVENT);
    assert_eq!(first, second);
    assert_eq!(first.iter().map(|e| e.candidate_id).collect::<Vec<_>>(), vec![2, 4, 1, 3]);
}
