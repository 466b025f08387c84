use voting_kernel::best::BestFitVoting;
use voting_kernel::fallback::BestFitVotingWithFallback;
use voting_kernel::model::MeasurementRecord;
use voting_kernel::model::WinnerElement;
use voting_kernel::stage::eligible_pairs;

fn rec(q: u64, c: u64, d: Option<u64>) -> MeasurementRecord {
    MeasurementRecord { query_id: q, candidate_id: c, feature_distance: d }
}

fn we(q: u64, w: u64, weight: u128) -> WinnerElement {
    WinnerElement { query_track: q, winner_track: w, weight }
}

#[test]
fn new_stores_configuration() {
    let engine = BestFitVoting::new(5, 2);
    assert_eq!(engine.max_distance, 5);
    assert_eq!(engine.min_votes, 2);
    let engine = BestFitVotingWithFallback::new(7, 3);
    assert_eq!(engine.max_distance, 7);
    assert_eq!(engine.min_votes, 3);
}

#[test]
fn two_votes_survive_one_vote_dropped_best_fit() {
    // Query 1 -> candidate 10 twice (distances 2, 3), query 2 -> 10 once.
    let records = vec![rec(1, 10, Some(2)), rec(1, 10, Some(3)), rec(2, 10, Some(1))];
    let res = BestFitVoting::new(5, 2).winners(&records);
    // Reference max is 3; weight of (1, 10) is (3-2) + (3-3) = 1.
    assert_eq!(res.len(), 1);
    assert_eq!(res[0].0, 1);
    assert_eq!(res[0].1, vec![we(1, 10, 1)]);
    assert!(res[0].1[0].weight > 0);
    assert!(res.iter().all(|(q, _)| *q != 2));
}

#[test]
fn two_votes_survive_one_vote_dropped_fallback() {
    // Query 2's only pair is dropped by the vote-count filter, so it is
    // absent from the result, not self-looped.
    let records = vec![rec(1, 10, Some(2)), rec(1, 10, Some(3)), rec(2, 10, Some(1))];
    let res = BestFitVotingWithFallback::new(5, 2).winners(&records);
    assert_eq!(res.len(), 1);
    assert_eq!(res[0].0, 1);
    assert_eq!(res[0].1, vec![we(1, 10, 1)]);
    assert!(res.iter().all(|(q, _)| *q != 2));
}

#[test]
fn shared_candidate_higher_weight_wins_best_fit() {
    // Both queries are eligible only for candidate 10; query 1 is heavier.
    let records = vec![
        rec(1, 10, Some(1)),
        rec(1, 10, Some(1)),
        rec(2, 10, Some(2)),
        rec(2, 10, Some(1)),
    ];
    let res = BestFitVoting::new(5, 2).winners(&records);
    // Reference max 2: weights are 2 for (1,10) and 1 for (2,10). The
    // loser is demoted to a self-loop and keeps its weight.
    assert_eq!(res.len(), 2);
    assert_eq!(res[0], (1, vec![we(1, 10, 2)]));
    assert_eq!(res[1], (2, vec![we(2, 2, 1)]));
}

#[test]
fn shared_candidate_higher_weight_wins_fallback() {
    // Same input as the Best-Fit case; the fallback self-loop carries
    // weight zero instead.
    let records = vec![
        rec(1, 10, Some(1)),
        rec(1, 10, Some(1)),
        rec(2, 10, Some(2)),
        rec(2, 10, Some(1)),
    ];
    let res = BestFitVotingWithFallback::new(5, 2).winners(&records);
    assert_eq!(res.len(), 2);
    assert_eq!(res[0], (1, vec![we(1, 10, 2)]));
    assert_eq!(res[1], (2, vec![we(2, 2, 0)]));
}

#[test]
fn empty_input_yields_empty_mapping() {
    let records: Vec<MeasurementRecord> = Vec::new();
    assert!(BestFitVoting::new(5, 1).winners(&records).is_empty());
    assert!(BestFitVotingWithFallback::new(5, 1).winners(&records).is_empty());
}

#[test]
fn fully_filtered_input_yields_empty_mapping() {
    // One record without a distance, one above the threshold.
    let records = vec![rec(1, 10, None), rec(2, 20, Some(9))];
    assert!(BestFitVoting::new(5, 1).winners(&records).is_empty());
    assert!(BestFitVotingWithFallback::new(5, 1).winners(&records).is_empty());
}

#[test]
fn threshold_discards_records_silently() {
    // The distance-6 record is above the threshold: it must influence
    // neither the reference max nor the pair's weight.
    let records = vec![rec(1, 10, Some(6)), rec(1, 10, Some(2)), rec(1, 10, Some(2))];
    let res = BestFitVoting::new(5, 2).winners(&records);
    // Reference max 2, weight (2-2) + (2-2) = 0.
    assert_eq!(res, vec![(1, vec![we(1, 10, 0)])]);
}

#[test]
fn absent_distance_is_not_a_vote() {
    // The record without a distance does not count towards min_votes.
    let records = vec![rec(1, 10, None), rec(1, 10, Some(1))];
    let res = BestFitVoting::new(5, 2).winners(&records);
    assert!(res.is_empty());
}

#[test]
fn reference_max_spans_all_retained_records() {
    // The single (9, 9) measurement is dropped by the vote-count filter,
    // but its distance 3 still fixes the shared reference maximum.
    let records = vec![rec(1, 10, Some(1)), rec(1, 10, Some(1)), rec(9, 9, Some(3))];
    let res = BestFitVoting::new(5, 2).winners(&records);
    // Weight is (3-1) + (3-1) = 4, not (1-1) + (1-1) = 0.
    assert_eq!(res, vec![(1, vec![we(1, 10, 4)])]);
}

#[test]
fn extra_close_measurement_increases_weight() {
    let base = vec![rec(1, 10, Some(1)), rec(1, 10, Some(1)), rec(9, 9, Some(3))];
    let mut extended = base.clone();
    extended.push(rec(1, 10, Some(2)));
    let engine = BestFitVoting::new(5, 2);
    let w_base = engine.winners(&base)[0].1[0].weight;
    let w_ext = engine.winners(&extended)[0].1[0].weight;
    assert_eq!(w_base, 4);
    assert_eq!(w_ext, 5);
    assert!(w_ext > w_base);
}

#[test]
fn rerun_on_same_input_is_identical() {
    let records = vec![
        rec(1, 10, Some(1)),
        rec(1, 10, Some(1)),
        rec(2, 10, Some(2)),
        rec(2, 10, Some(1)),
        rec(3, 11, Some(0)),
    ];
    let best = BestFitVoting::new(5, 1);
    assert_eq!(best.winners(&records), best.winners(&records));
    let fb = BestFitVotingWithFallback::new(5, 1);
    assert_eq!(fb.winners(&records), fb.winners(&records));
}

#[test]
fn no_candidate_allocated_twice_best_fit() {
    // Three queries compete for candidate 10 with distinct weights.
    let records = vec![rec(1, 10, Some(0)), rec(2, 10, Some(1)), rec(3, 10, Some(2))];
    let res = BestFitVoting::new(5, 1).winners(&records);
    assert_eq!(res.len(), 3);
    let mut genuine = 0;
    for (q, entries) in &res {
        for e in entries {
            assert_eq!(e.query_track, *q);
            if e.winner_track != e.query_track {
                assert_eq!(e.winner_track, 10);
                genuine += 1;
            }
        }
    }
    assert_eq!(genuine, 1);
    // The heaviest pair wins; the others become self-loops.
    assert_eq!(res[0], (1, vec![we(1, 10, 2)]));
    assert_eq!(res[1], (2, vec![we(2, 2, 1)]));
    assert_eq!(res[2], (3, vec![we(3, 3, 0)]));
}

#[test]
fn fallback_takes_second_choice_when_first_is_claimed() {
    let records = vec![rec(1, 10, Some(0)), rec(2, 10, Some(1)), rec(2, 11, Some(2))];
    let res = BestFitVotingWithFallback::new(5, 1).winners(&records);
    // Reference max 2: (1,10) weighs 2, (2,10) weighs 1, (2,11) weighs 0.
    // Query 1 claims 10; query 2 falls through to its second choice 11.
    assert_eq!(res.len(), 2);
    assert_eq!(res[0], (1, vec![we(1, 10, 2)]));
    assert_eq!(res[1], (2, vec![we(2, 11, 0)]));
}

#[test]
fn best_fit_keeps_one_entry_per_eligible_pair() {
    // Query 2 had two eligible pairs: one is demoted, one is kept; both
    // stay in the output under query 2.
    let records = vec![rec(1, 10, Some(0)), rec(2, 10, Some(1)), rec(2, 11, Some(2))];
    let res = BestFitVoting::new(5, 1).winners(&records);
    assert_eq!(res.len(), 2);
    assert_eq!(res[0], (1, vec![we(1, 10, 2)]));
    assert_eq!(res[1], (2, vec![we(2, 2, 1), we(2, 11, 0)]));
}

#[test]
fn equal_weights_break_ties_by_query_id() {
    let forward = vec![rec(1, 10, Some(1)), rec(2, 20, Some(1))];
    let backward = vec![rec(2, 20, Some(1)), rec(1, 10, Some(1))];
    let engine = BestFitVoting::new(5, 1);
    let res_f = engine.winners(&forward);
    let res_b = engine.winners(&backward);
    // Both pairs weigh 0; the tie-break orders them by query id, so the
    // resolved list — and with it the mapping — is the same either way.
    assert_eq!(res_f, vec![(1, vec![we(1, 10, 0)]), (2, vec![we(2, 20, 0)])]);
    assert_eq!(res_f, res_b);
}

#[test]
fn eligible_pairs_reports_votes_and_reference_max() {
    let records = vec![
        rec(1, 10, Some(2)),
        rec(1, 10, Some(3)),
        rec(2, 10, Some(1)),
        rec(3, 30, None),
    ];
    let (pairs, ref_max) = eligible_pairs(&records, 5, 2);
    assert_eq!(ref_max, Some(3));
    assert_eq!(pairs, vec![we(1, 10, 1)]);

    let (pairs, ref_max) = eligible_pairs(&records, 5, 1);
    assert_eq!(ref_max, Some(3));
    // Pairs come in order of first appearance.
    assert_eq!(pairs, vec![we(1, 10, 1), we(2, 10, 2)]);

    let empty: Vec<MeasurementRecord> = Vec::new();
    let (pairs, ref_max) = eligible_pairs(&empty, 5, 1);
    assert_eq!(ref_max, None);
    assert!(pairs.is_empty());
}

#[test]
fn inclusive_threshold_keeps_boundary_distance() {
    // A distance exactly at max_distance is retained.
    let records = vec![rec(1, 10, Some(5)), rec(1, 10, Some(5))];
    let res = BestFitVoting::new(5, 2).winners(&records);
    assert_eq!(res, vec![(1, vec![we(1, 10, 0)])]);
}

#[test]
fn genuine_self_match_keeps_its_weight() {
    // A track may genuinely match itself; that is not a fallback entry.
    let records = vec![rec(7, 7, Some(0)), rec(7, 7, Some(1))];
    let res = BestFitVotingWithFallback::new(5, 2).winners(&records);
    assert_eq!(res, vec![(7, vec![we(7, 7, 1)])]);
}

#[test]
fn large_distances_accumulate_exactly() {
    // Weights can exceed u64: two votes at distance 0 against a
    // reference maximum of u64::MAX.
    let records = vec![
        rec(1, 10, Some(0)),
        rec(1, 10, Some(0)),
        rec(9, 9, Some(u64::MAX)),
    ];
    let res = BestFitVoting::new(u64::MAX, 2).winners(&records);
    let expected = 2 * (u64::MAX as u128);
    assert_eq!(res, vec![(1, vec![we(1, 10, expected)])]);
}

#[test]
fn tie_resolution_differs_by_policy_but_is_deterministic() {
    // Queries 2 and 1 (in that input order) both want candidate 10 with
    // equal weight. The fallback walk follows first appearance, so query
    // 2 wins; the global sort breaks the tie by query id, so under
    // Best-Fit query 1 wins. Both outcomes are fixed by the input order.
    let records = vec![rec(2, 10, Some(1)), rec(1, 10, Some(1))];
    let fb = BestFitVotingWithFallback::new(5, 1).winners(&records);
    assert_eq!(fb, vec![(2, vec![we(2, 10, 0)]), (1, vec![we(1, 1, 0)])]);
    let bf = BestFitVoting::new(5, 1).winners(&records);
    assert_eq!(bf, vec![(1, vec![we(1, 10, 0)]), (2, vec![we(2, 2, 0)])]);
}
