//! Data model of the voting kernel and the spec functions that describe
//! its filtering, grouping and weighting stages.

use vstd::prelude::*;

verus! {

/// One observed similarity measurement between a query track and a
/// candidate track. `feature_distance` is a fixed-point distance;
/// `None` means "no usable measurement" and the record is discarded.
#[derive(Clone, Copy, Debug, PartialEq, Eq)]
pub struct MeasurementRecord {
    pub query_id: u64,
    pub candidate_id: u64,
    pub feature_distance: Option<u64>,
}

/// One output entry: the chosen winner for a query, with its accumulated
/// weight. A self-referential entry (`query_track == winner_track`)
/// signals "no assignment found" rather than an actual match.
#[derive(Clone, Copy, Debug, PartialEq, Eq)]
pub struct WinnerElement {
    pub query_track: u64,
    pub winner_track: u64,
    pub weight: u128,
}

/// A record passes the threshold filter when it carries a distance and
/// the distance does not exceed `max_distance` (inclusive bound).
pub open spec fn passes(r: MeasurementRecord, max_distance: u64) -> bool {
    r.feature_distance is Some && r.feature_distance->0 <= max_distance
}

pub open spec fn passes_pred(max_distance: u64) -> spec_fn(MeasurementRecord) -> bool {
    |r: MeasurementRecord| passes(r, max_distance)
}

/// The distance carried by a record known to pass the filter.
pub open spec fn distance_of(r: MeasurementRecord) -> u64 {
    r.feature_distance->0
}

/// The records that survive the threshold filter, in input order.
pub open spec fn retained_records(
    records: Seq<MeasurementRecord>,
    max_distance: u64,
) -> Seq<MeasurementRecord> {
    records.filter(passes_pred(max_distance))
}

/// Maximum distance among a sequence of retained records; `-1` (the
/// sentinel below any valid distance) when the sequence is empty.
pub open spec fn max_retained_distance(s: Seq<MeasurementRecord>) -> int
    decreases s.len(),
{
    if s.len() == 0 {
        -1
    } else {
        let m = max_retained_distance(s.drop_last());
        if distance_of(s.last()) as int > m {
            distance_of(s.last()) as int
        } else {
            m
        }
    }
}

pub open spec fn key_pred(q: u64, c: u64) -> spec_fn(MeasurementRecord) -> bool {
    |r: MeasurementRecord| r.query_id == q && r.candidate_id == c
}

/// The retained distances of the candidate pair `(q, c)`, in input order.
pub open spec fn key_distances(s: Seq<MeasurementRecord>, q: u64, c: u64) -> Seq<u64> {
    s.filter(key_pred(q, c)).map_values(|r: MeasurementRecord| distance_of(r))
}

/// Accumulated weight of a candidate pair: the sum of
/// `ref_max - d` over its retained distances.
pub open spec fn weight_of(dists: Seq<u64>, ref_max: int) -> int
    decreases dists.len(),
{
    if dists.len() == 0 {
        0
    } else {
        weight_of(dists.drop_last(), ref_max) + (ref_max - dists.last())
    }
}

/// The first occurrence of each element, in order of first appearance.
pub open spec fn first_occurrences<A>(s: Seq<A>) -> Seq<A>
    decreases s.len(),
{
    if s.len() == 0 {
        s
    } else {
        let rest = first_occurrences(s.drop_last());
        if rest.contains(s.last()) {
            rest
        } else {
            rest.push(s.last())
        }
    }
}

pub open spec fn key_of(r: MeasurementRecord) -> (u64, u64) {
    (r.query_id, r.candidate_id)
}

/// The `(query_id, candidate_id)` keys of a sequence of records.
pub open spec fn record_keys(s: Seq<MeasurementRecord>) -> Seq<(u64, u64)> {
    s.map_values(|r: MeasurementRecord| key_of(r))
}

/// A pair is eligible when it gathered at least `min_votes` retained
/// measurements.
pub open spec fn vote_pred(
    retained: Seq<MeasurementRecord>,
    min_votes: usize,
) -> spec_fn((u64, u64)) -> bool {
    |k: (u64, u64)| key_distances(retained, k.0, k.1).len() >= min_votes
}

/// The output element built for an eligible pair.
pub open spec fn pair_element(
    retained: Seq<MeasurementRecord>,
    ref_max: int,
) -> spec_fn((u64, u64)) -> WinnerElement {
    |k: (u64, u64)| WinnerElement {
        query_track: k.0,
        winner_track: k.1,
        weight: weight_of(key_distances(retained, k.0, k.1), ref_max) as u128,
    }
}

/// The candidate pairs that survive both filters, each with its
/// accumulated weight, in order of first appearance of the pair.
pub open spec fn eligible_pairs_spec(
    retained: Seq<MeasurementRecord>,
    ref_max: int,
    min_votes: usize,
) -> Seq<WinnerElement> {
    first_occurrences(record_keys(retained)).filter(vote_pred(retained, min_votes)).map_values(
        pair_element(retained, ref_max),
    )
}

/// Filtering a sequence extended by one element keeps the filtered
/// prefix and appends the element exactly when it satisfies the
/// predicate.
pub proof fn lemma_filter_push<A>(s: Seq<A>, pred: spec_fn(A) -> bool, x: A)
    ensures
        s.push(x).filter(pred) == if pred(x) {
            s.filter(pred).push(x)
        } else {
            s.filter(pred)
        },
{
    reveal(Seq::filter);
    assert(s.push(x).drop_last() =~= s);
    assert(s.push(x).last() == x);
}

/// Every element of a filtered sequence occurs in the original sequence.
pub proof fn lemma_filter_subset<A>(s: Seq<A>, pred: spec_fn(A) -> bool)
    ensures
        forall|i: int|
            0 <= i < s.filter(pred).len() ==> s.contains(#[trigger] s.filter(pred)[i]),
    decreases s.len(),
{
    reveal(Seq::filter);
    if s.len() > 0 {
        lemma_filter_subset(s.drop_last(), pred);
        assert forall|i: int|
            0 <= i < s.filter(pred).len() implies s.contains(#[trigger] s.filter(pred)[i]) by {
            let f = s.filter(pred);
            let fd = s.drop_last().filter(pred);
            if i < fd.len() {
                assert(s.drop_last().contains(fd[i]));
                let j = choose|j: int| 0 <= j < s.drop_last().len() && s.drop_last()[j] == fd[i];
                assert(s[j] == fd[i]);
            } else {
                assert(f[i] == s.last());
            }
        }
    }
}

/// `first_occurrences` keeps exactly the elements of its input.
pub proof fn lemma_first_occurrences_contains<A>(s: Seq<A>, x: A)
    ensures
        first_occurrences(s).contains(x) <==> s.contains(x),
    decreases s.len(),
{
    if s.len() > 0 {
        lemma_first_occurrences_contains(s.drop_last(), x);
        let rest = first_occurrences(s.drop_last());
        let rs = first_occurrences(s);
        if s.contains(x) {
            let i = choose|i: int| 0 <= i < s.len() && s[i] == x;
            if i < s.len() - 1 {
                assert(s.drop_last()[i] == x);
                assert(s.drop_last().contains(x));
                let j = choose|j: int| 0 <= j < rest.len() && rest[j] == x;
                if rest.contains(s.last()) {
                    assert(rs[j] == x);
                } else {
                    assert(rs[j] == rest[j]);
                }
                assert(rs.contains(x));
            } else {
                assert(s.last() == x);
                if rest.contains(x) {
                    let j = choose|j: int| 0 <= j < rest.len() && rest[j] == x;
                    assert(rs[j] == x);
                } else {
                    assert(rs[rs.len() - 1] == x);
                }
                assert(rs.contains(x));
            }
        }
        if rs.contains(x) {
            let i = choose|i: int| 0 <= i < rs.len() && rs[i] == x;
            if rest.contains(s.last()) {
                assert(rest[i] == x);
                assert(rest.contains(x));
                assert(s.drop_last().contains(x));
                let j = choose|j: int| 0 <= j < s.drop_last().len() && s.drop_last()[j] == x;
                assert(s[j] == x);
            } else {
                if i < rest.len() {
                    assert(rest[i] == x);
                    assert(rest.contains(x));
                    assert(s.drop_last().contains(x));
                    let j = choose|j: int|
                        0 <= j < s.drop_last().len() && s.drop_last()[j] == x;
                    assert(s[j] == x);
                } else {
                    assert(rs[i] == s.last());
                    assert(s[s.len() - 1] == x);
                }
            }
            assert(s.contains(x));
        }
    }
}

/// `first_occurrences` never repeats an element.
pub proof fn lemma_first_occurrences_distinct<A>(s: Seq<A>)
    ensures
        forall|i: int, j: int|
            0 <= i < j < first_occurrences(s).len() ==> first_occurrences(s)[i]
                != first_occurrences(s)[j],
    decreases s.len(),
{
    if s.len() > 0 {
        lemma_first_occurrences_distinct(s.drop_last());
        let rest = first_occurrences(s.drop_last());
        assert forall|i: int, j: int|
            0 <= i < j < first_occurrences(s).len() implies first_occurrences(s)[i]
            != first_occurrences(s)[j] by {
            if !rest.contains(s.last()) && j == first_occurrences(s).len() - 1 {
                assert(first_occurrences(s)[j] == s.last());
                assert(rest.contains(rest[i]));
            }
        }
    }
}

/// The maximum retained distance bounds every retained distance.
pub proof fn lemma_max_retained_distance_ge(s: Seq<MeasurementRecord>)
    ensures
        forall|i: int| 0 <= i < s.len() ==> distance_of(#[trigger] s[i]) as int
            <= max_retained_distance(s),
    decreases s.len(),
{
    if s.len() > 0 {
        lemma_max_retained_distance_ge(s.drop_last());
        assert forall|i: int|
            0 <= i < s.len() implies distance_of(#[trigger] s[i]) as int
            <= max_retained_distance(s) by {
            if i < s.len() - 1 {
                assert(s.drop_last()[i] == s[i]);
            }
        }
    }
}

} // verus!
