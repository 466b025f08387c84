//! The kernel's global guarantees, stated and proved over the spec
//! pipeline: threshold and vote-count filtering, weight monotonicity,
//! single allocation of candidates, fallback completeness, and
//! determinism.

use vstd::prelude::*;

use crate::best::best_fit_winners_spec;
use crate::best::claimed_after;
use crate::best::demote;
use crate::best::queries_of;
use crate::best::query_entry;
use crate::best::query_pred;
use crate::best::resolve_conflicts;
use crate::best::result_map_spec;
use crate::fallback::assign_queries;
use crate::fallback::fallback_winners_spec;
use crate::fallback::per_query_groups_spec;
use crate::fallback::pick_first_free;
use crate::fallback::self_loop;
use crate::fallback::sorted_query_entry;
use crate::model::MeasurementRecord;
use crate::model::WinnerElement;
use crate::model::eligible_pairs_spec;
use crate::model::first_occurrences;
use crate::model::key_distances;
use crate::model::key_pred;
use crate::model::key_of;
use crate::model::lemma_filter_subset;
use crate::model::lemma_first_occurrences_contains;
use crate::model::lemma_first_occurrences_distinct;
use crate::model::max_retained_distance;
use crate::model::pair_element;
use crate::model::passes;
use crate::model::record_keys;
use crate::model::retained_records;
use crate::model::vote_pred;
use crate::model::weight_of;
use crate::order::lemma_sort_desc_contains;
use crate::order::sort_desc_spec;

verus! {

/// Threshold law: a record whose distance is absent or above
/// `max_distance` is never retained, so a candidate pair all of whose
/// measurements were discarded never yields an eligible pair.
pub proof fn lemma_threshold(
    records: Seq<MeasurementRecord>,
    max_distance: u64,
    min_votes: usize,
    q: u64,
    c: u64,
)
    requires
        key_distances(retained_records(records, max_distance), q, c).len() == 0,
    ensures
        forall|i: int|
            0 <= i < retained_records(records, max_distance).len() ==> passes(
                #[trigger] retained_records(records, max_distance)[i],
                max_distance,
            ),
        forall|i: int|
            0 <= i < eligible_pairs_spec(
                retained_records(records, max_distance),
                max_retained_distance(retained_records(records, max_distance)),
                min_votes,
            ).len() ==> !((#[trigger] eligible_pairs_spec(
                retained_records(records, max_distance),
                max_retained_distance(retained_records(records, max_distance)),
                min_votes,
            )[i]).query_track == q && eligible_pairs_spec(
                retained_records(records, max_distance),
                max_retained_distance(retained_records(records, max_distance)),
                min_votes,
            )[i].winner_track == c),
{
    broadcast use vstd::seq_lib::group_filter_ensures;

    let retained = retained_records(records, max_distance);
    let rmax = max_retained_distance(retained);
    let eligible = eligible_pairs_spec(retained, rmax, min_votes);
    let keys = first_occurrences(record_keys(retained)).filter(vote_pred(retained, min_votes));
    assert forall|i: int|
        0 <= i < eligible.len() implies !((#[trigger] eligible[i]).query_track == q
        && eligible[i].winner_track == c) by {
        assert(eligible[i] == pair_element(retained, rmax)(keys[i]));
        if eligible[i].query_track == q && eligible[i].winner_track == c {
            assert(keys[i] == (q, c));
            lemma_filter_subset(first_occurrences(record_keys(retained)), vote_pred(retained, min_votes));
            assert(first_occurrences(record_keys(retained)).contains((q, c)));
            lemma_first_occurrences_contains(record_keys(retained), (q, c));
            assert(record_keys(retained).contains((q, c)));
            let j = choose|j: int|
                0 <= j < record_keys(retained).len() && record_keys(retained)[j] == (q, c);
            assert(record_keys(retained)[j] == key_of(retained[j]));
            assert(key_pred(q, c)(retained[j]));
            assert(retained.filter(key_pred(q, c)).contains(retained[j]));
            assert(key_distances(retained, q, c).len() > 0);
        }
    }
}

/// Vote-count law: every eligible pair gathered at least `min_votes`
/// retained measurements.
pub proof fn lemma_vote_count(records: Seq<MeasurementRecord>, max_distance: u64, min_votes: usize)
    ensures
        forall|i: int|
            0 <= i < eligible_pairs_spec(
                retained_records(records, max_distance),
                max_retained_distance(retained_records(records, max_distance)),
                min_votes,
            ).len() ==> key_distances(
                retained_records(records, max_distance),
                (#[trigger] eligible_pairs_spec(
                    retained_records(records, max_distance),
                    max_retained_distance(retained_records(records, max_distance)),
                    min_votes,
                )[i]).query_track,
                eligible_pairs_spec(
                    retained_records(records, max_distance),
                    max_retained_distance(retained_records(records, max_distance)),
                    min_votes,
                )[i].winner_track,
            ).len() >= min_votes,
{
    broadcast use vstd::seq_lib::group_filter_ensures;

    let retained = retained_records(records, max_distance);
    let rmax = max_retained_distance(retained);
    let eligible = eligible_pairs_spec(retained, rmax, min_votes);
    let keys = first_occurrences(record_keys(retained)).filter(vote_pred(retained, min_votes));
    assert forall|i: int|
        0 <= i < eligible.len() implies key_distances(
        retained,
        (#[trigger] eligible[i]).query_track,
        eligible[i].winner_track,
    ).len() >= min_votes by {
        assert(eligible[i] == pair_element(retained, rmax)(keys[i]));
        assert(vote_pred(retained, min_votes)(keys[i]));
    }
}

/// Weight-monotonicity law: with the reference maximum fixed, one more
/// corroborating measurement with distance strictly below the reference
/// maximum strictly increases the pair's weight.
pub proof fn lemma_weight_monotonic(dists: Seq<u64>, d: u64, ref_max: int)
    requires
        (d as int) < ref_max,
    ensures
        weight_of(dists.push(d), ref_max) > weight_of(dists, ref_max),
{
    assert(dists.push(d).drop_last() =~= dists);
    assert(dists.push(d).last() == d);
}

/// Shape of Best-Fit conflict resolution: entries are kept or demoted in
/// place, a kept (non-self) entry's winner was never claimed before, and
/// two non-self entries never share a winner.
pub proof fn lemma_resolve_shape(s: Seq<WinnerElement>, claimed: Set<u64>)
    ensures
        resolve_conflicts(s, claimed).len() == s.len(),
        forall|i: int|
            0 <= i < s.len() ==> #[trigger] resolve_conflicts(s, claimed)[i] == s[i]
                || resolve_conflicts(s, claimed)[i] == demote(s[i]),
        forall|i: int|
            0 <= i < s.len() && (#[trigger] resolve_conflicts(s, claimed)[i]).winner_track
                != resolve_conflicts(s, claimed)[i].query_track ==> !claimed.contains(
                resolve_conflicts(s, claimed)[i].winner_track,
            ),
        forall|i: int, j: int|
            0 <= i < j < s.len() && (#[trigger] resolve_conflicts(s, claimed)[i]).winner_track
                != resolve_conflicts(s, claimed)[i].query_track && (#[trigger] resolve_conflicts(
                s,
                claimed,
            )[j]).winner_track != resolve_conflicts(s, claimed)[j].query_track
                ==> resolve_conflicts(s, claimed)[i].winner_track != resolve_conflicts(
                s,
                claimed,
            )[j].winner_track,
    decreases s.len(),
{
    if s.len() > 0 {
        let out = resolve_conflicts(s, claimed);
        let rest = s.drop_first();
        if claimed.contains(s.first().winner_track) {
            lemma_resolve_shape(rest, claimed);
            let sub = resolve_conflicts(rest, claimed);
            assert(out == seq![demote(s.first())] + sub);
            assert(out[0] == demote(s.first()));
            assert(forall|k: int| 1 <= k < out.len() ==> #[trigger] out[k] == sub[k - 1]);
            assert(forall|k: int| 1 <= k < out.len() ==> s[k] == rest[k - 1]);
            assert(out[0].winner_track == out[0].query_track);
        } else {
            let claimed2 = claimed.insert(s.first().winner_track);
            lemma_resolve_shape(rest, claimed2);
            let sub = resolve_conflicts(rest, claimed2);
            assert(out == seq![s.first()] + sub);
            assert(out[0] == s[0]);
            assert(forall|k: int| 1 <= k < out.len() ==> #[trigger] out[k] == sub[k - 1]);
            assert(forall|k: int| 1 <= k < out.len() ==> s[k] == rest[k - 1]);
            assert forall|i: int, j: int|
                0 <= i < j < s.len() && (#[trigger] out[i]).winner_track != out[i].query_track && (
                #[trigger] out[j]).winner_track != out[j].query_track implies out[i].winner_track
                != out[j].winner_track by {
                if i == 0 {
                    assert(out[j] == sub[j - 1]);
                    assert(!claimed2.contains(sub[j - 1].winner_track));
                    assert(claimed2.contains(s.first().winner_track));
                }
            }
        }
    }
}

/// No-double-allocation law (Best-Fit): in the final mapping, no
/// candidate id is the winner of two entries with different queries,
/// unless one of them is a self-loop.
pub proof fn lemma_no_double_allocation(
    records: Seq<MeasurementRecord>,
    max_distance: u64,
    min_votes: usize,
    m: Seq<(u64, Seq<WinnerElement>)>,
)
    requires
        m == best_fit_winners_spec(records, max_distance, min_votes),
    ensures
        forall|a: int, i: int, b: int, j: int|
            (0 <= a < m.len() && 0 <= b < m.len() && 0 <= i < m[a].1.len() && 0 <= j < m[b].1.len()
                && (#[trigger] m[a].1[i]).winner_track == (#[trigger] m[b].1[j]).winner_track
                && m[a].1[i].query_track != m[b].1[j].query_track) ==> (m[a].1[i].winner_track
                == m[a].1[i].query_track || m[b].1[j].winner_track == m[b].1[j].query_track),
{
    broadcast use vstd::seq_lib::group_filter_ensures;

    let retained = retained_records(records, max_distance);
    let eligible = eligible_pairs_spec(retained, max_retained_distance(retained), min_votes);
    let sorted = sort_desc_spec(eligible);
    let resolved = resolve_conflicts(sorted, Set::empty());
    assert(m == result_map_spec(resolved));
    lemma_resolve_shape(sorted, Set::empty());
    assert forall|a: int, i: int, b: int, j: int|
        (0 <= a < m.len() && 0 <= b < m.len() && 0 <= i < m[a].1.len() && 0 <= j < m[b].1.len()
            && (#[trigger] m[a].1[i]).winner_track == (#[trigger] m[b].1[j]).winner_track
            && m[a].1[i].query_track != m[b].1[j].query_track) implies (m[a].1[i].winner_track
        == m[a].1[i].query_track || m[b].1[j].winner_track == m[b].1[j].query_track) by {
        let qa = queries_of(resolved)[a];
        let qb = queries_of(resolved)[b];
        assert(m[a] == query_entry(resolved)(qa));
        assert(m[b] == query_entry(resolved)(qb));
        let ea = m[a].1[i];
        let eb = m[b].1[j];
        lemma_filter_subset(resolved, query_pred(qa));
        lemma_filter_subset(resolved, query_pred(qb));
        assert(resolved.contains(ea));
        assert(resolved.contains(eb));
        let ia = choose|ia: int| 0 <= ia < resolved.len() && resolved[ia] == ea;
        let ib = choose|ib: int| 0 <= ib < resolved.len() && resolved[ib] == eb;
        assert(ia != ib);
        if ea.winner_track != ea.query_track && eb.winner_track != eb.query_track {
            if ia < ib {
                assert(resolved[ia].winner_track != resolved[ib].winner_track);
            } else {
                assert(resolved[ib].winner_track != resolved[ia].winner_track);
            }
        }
    }
}

/// Provenance of Best-Fit output entries: every entry sits under its own
/// query id, and every non-self entry is one of the eligible candidate
/// pairs — so the threshold and vote-count laws extend to the final
/// mapping.
pub proof fn lemma_best_fit_entries(
    records: Seq<MeasurementRecord>,
    max_distance: u64,
    min_votes: usize,
    eligible: Seq<WinnerElement>,
    m: Seq<(u64, Seq<WinnerElement>)>,
)
    requires
        eligible == eligible_pairs_spec(
            retained_records(records, max_distance),
            max_retained_distance(retained_records(records, max_distance)),
            min_votes,
        ),
        m == best_fit_winners_spec(records, max_distance, min_votes),
    ensures
        forall|a: int, i: int|
            0 <= a < m.len() && 0 <= i < m[a].1.len() ==> (#[trigger] m[a].1[i]).query_track
                == m[a].0,
        forall|a: int, i: int|
            0 <= a < m.len() && 0 <= i < m[a].1.len() && (#[trigger] m[a].1[i]).winner_track
                != m[a].1[i].query_track ==> eligible.contains(m[a].1[i]),
{
    broadcast use vstd::seq_lib::group_filter_ensures;

    let retained = retained_records(records, max_distance);
    let sorted = sort_desc_spec(eligible);
    let resolved = resolve_conflicts(sorted, Set::empty());
    assert(m == result_map_spec(resolved));
    lemma_resolve_shape(sorted, Set::empty());
    assert forall|a: int, i: int|
        0 <= a < m.len() && 0 <= i < m[a].1.len() implies (#[trigger] m[a].1[i]).query_track
        == m[a].0 by {
        let qa = queries_of(resolved)[a];
        assert(m[a] == query_entry(resolved)(qa));
        assert(query_pred(qa)(m[a].1[i]));
    }
    assert forall|a: int, i: int|
        0 <= a < m.len() && 0 <= i < m[a].1.len() && (#[trigger] m[a].1[i]).winner_track
        != m[a].1[i].query_track implies eligible.contains(m[a].1[i]) by {
        let qa = queries_of(resolved)[a];
        assert(m[a] == query_entry(resolved)(qa));
        let e = m[a].1[i];
        lemma_filter_subset(resolved, query_pred(qa));
        assert(resolved.contains(e));
        let k = choose|k: int| 0 <= k < resolved.len() && resolved[k] == e;
        assert(resolved[k] == sorted[k] || resolved[k] == demote(sorted[k]));
        assert(resolved[k] == sorted[k]);
        lemma_sort_desc_contains(eligible, e);
        assert(sorted.contains(e));
    }
}

/// A successful scan returns one of the query's own candidates.
pub proof fn lemma_pick_contains(cands: Seq<WinnerElement>, claimed: Set<u64>)
    ensures
        pick_first_free(cands, claimed) matches Some(e) ==> cands.contains(e),
        pick_first_free(cands, claimed) matches Some(e) ==> !claimed.contains(e.winner_track),
    decreases cands.len(),
{
    if cands.len() > 0 {
        if claimed.contains(cands.first().winner_track) {
            lemma_pick_contains(cands.drop_first(), claimed);
            if pick_first_free(cands, claimed) is Some {
                let e = pick_first_free(cands, claimed)->0;
                assert(cands.drop_first().contains(e));
                let k = choose|k: int|
                    0 <= k < cands.drop_first().len() && cands.drop_first()[k] == e;
                assert(cands[k + 1] == e);
            }
        } else {
            assert(cands.contains(cands.first()));
        }
    }
}

/// Shape of the fallback assignment: one entry per query group, in
/// order, holding exactly one element — the picked candidate (one of the
/// group's own) or the query's zero-weight self-loop.
pub proof fn lemma_assign_shape(groups: Seq<(u64, Seq<WinnerElement>)>, claimed: Set<u64>)
    ensures
        assign_queries(groups, claimed).len() == groups.len(),
        forall|a: int|
            0 <= a < groups.len() ==> (#[trigger] assign_queries(groups, claimed)[a]).0
                == groups[a].0,
        forall|a: int|
            0 <= a < groups.len() ==> (#[trigger] assign_queries(groups, claimed)[a]).1.len() == 1,
        forall|a: int|
            0 <= a < groups.len() ==> (groups[a].1.contains(
                (#[trigger] assign_queries(groups, claimed)[a]).1[0],
            ) || assign_queries(groups, claimed)[a].1[0] == self_loop(groups[a].0)),
    decreases groups.len(),
{
    if groups.len() > 0 {
        let out = assign_queries(groups, claimed);
        let rest = groups.drop_first();
        match pick_first_free(groups.first().1, claimed) {
            Some(e) => {
                lemma_pick_contains(groups.first().1, claimed);
                lemma_assign_shape(rest, claimed.insert(e.winner_track));
                let sub = assign_queries(rest, claimed.insert(e.winner_track));
                assert(out == seq![(groups.first().0, seq![e])] + sub);
                assert(out[0].1 == seq![e]);
                assert(out[0].1[0] == e);
                assert(forall|k: int| 1 <= k < out.len() ==> #[trigger] out[k] == sub[k - 1]);
                assert(forall|k: int| 1 <= k < out.len() ==> groups[k] == rest[k - 1]);
            },
            None => {
                lemma_assign_shape(rest, claimed);
                let sub = assign_queries(rest, claimed);
                assert(out == seq![(groups.first().0, seq![self_loop(groups.first().0)])] + sub);
                assert(out[0].1 == seq![self_loop(groups.first().0)]);
                assert(forall|k: int| 1 <= k < out.len() ==> #[trigger] out[k] == sub[k - 1]);
                assert(forall|k: int| 1 <= k < out.len() ==> groups[k] == rest[k - 1]);
            },
        }
    }
}

/// Fallback-completeness law: every query with at least one eligible
/// candidate pair receives exactly one entry holding exactly one
/// element, either one of its own eligible pairs or its zero-weight
/// self-loop; queries never repeat, and no entry is invented for a query
/// without eligible pairs.
pub proof fn lemma_fallback_completeness(
    records: Seq<MeasurementRecord>,
    max_distance: u64,
    min_votes: usize,
    q: u64,
    eligible: Seq<WinnerElement>,
    m: Seq<(u64, Seq<WinnerElement>)>,
)
    requires
        eligible == eligible_pairs_spec(
            retained_records(records, max_distance),
            max_retained_distance(retained_records(records, max_distance)),
            min_votes,
        ),
        m == fallback_winners_spec(records, max_distance, min_votes),
        exists|i: int|
            0 <= i < eligible.len() && (#[trigger] eligible[i]).query_track == q,
    ensures
        exists|a: int|
            0 <= a < m.len() && (#[trigger] m[a]).0 == q && m[a].1.len() == 1
                && m[a].1[0].query_track == q && (eligible.contains(m[a].1[0]) || m[a].1[0]
                == self_loop(q)),
        forall|a: int, b: int|
            0 <= a < b < m.len() ==> (#[trigger] m[a]).0 != (#[trigger] m[b]).0,
{
    broadcast use vstd::seq_lib::group_filter_ensures;

    let retained = retained_records(records, max_distance);
    let groups = per_query_groups_spec(eligible);
    assert(m == assign_queries(groups, Set::empty()));
    lemma_assign_shape(groups, Set::empty());
    let qtracks = eligible.map_values(|e: WinnerElement| e.query_track);
    let i = choose|i: int| 0 <= i < eligible.len() && (#[trigger] eligible[i]).query_track == q;
    assert(qtracks[i] == q);
    assert(qtracks.contains(q));
    lemma_first_occurrences_contains(qtracks, q);
    assert(queries_of(eligible).contains(q));
    let a = choose|a: int|
        0 <= a < queries_of(eligible).len() && queries_of(eligible)[a] == q;
    assert(groups[a] == sorted_query_entry(eligible)(q));
    assert(groups[a].0 == q);
    assert(groups[a].1 == sort_desc_spec(eligible.filter(query_pred(q))));
    assert(m[a].0 == q);
    assert(m[a].1.len() == 1);
    let e = m[a].1[0];
    if groups[a].1.contains(e) {
        lemma_sort_desc_contains(eligible.filter(query_pred(q)), e);
        assert(eligible.filter(query_pred(q)).contains(e));
        let k = choose|k: int|
            0 <= k < eligible.filter(query_pred(q)).len() && eligible.filter(query_pred(q))[k]
                == e;
        assert(query_pred(q)(e));
        lemma_filter_subset(eligible, query_pred(q));
        assert(eligible.contains(e));
        assert(e.query_track == q);
    } else {
        assert(e == self_loop(q));
        assert(e.query_track == q);
    }
    lemma_first_occurrences_distinct(qtracks);
    assert forall|a1: int, b1: int|
        0 <= a1 < b1 < m.len() implies (#[trigger] m[a1]).0 != (#[trigger] m[b1]).0 by {
        assert(m[a1].0 == groups[a1].0);
        assert(m[b1].0 == groups[b1].0);
        assert(groups[a1].0 == queries_of(eligible)[a1]);
        assert(groups[b1].0 == queries_of(eligible)[b1]);
    }
}

/// Determinism law (Best-Fit): the result is a function of the input
/// sequence and the configuration alone, so re-running the kernel on the
/// same input yields an identical mapping.
pub proof fn lemma_best_fit_deterministic(
    records: Seq<MeasurementRecord>,
    max_distance: u64,
    min_votes: usize,
    r1: Seq<(u64, Seq<WinnerElement>)>,
    r2: Seq<(u64, Seq<WinnerElement>)>,
)
    requires
        r1 == best_fit_winners_spec(records, max_distance, min_votes),
        r2 == best_fit_winners_spec(records, max_distance, min_votes),
    ensures
        r1 == r2,
{
}

/// Determinism law (Fallback): the result is a function of the input
/// sequence and the configuration alone, so re-running the kernel on the
/// same input yields an identical mapping.
pub proof fn lemma_fallback_deterministic(
    records: Seq<MeasurementRecord>,
    max_distance: u64,
    min_votes: usize,
    r1: Seq<(u64, Seq<WinnerElement>)>,
    r2: Seq<(u64, Seq<WinnerElement>)>,
)
    requires
        r1 == fallback_winners_spec(records, max_distance, min_votes),
        r2 == fallback_winners_spec(records, max_distance, min_votes),
    ensures
        r1 == r2,
{
}

} // verus!
