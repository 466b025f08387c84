//! Shared filtering and weighting stage: threshold filter, reference
//! maximum, grouping by candidate pair, vote-count filter and weight
//! accumulation. Both conflict-resolution policies consume its output.

use vstd::prelude::*;

use crate::model::MeasurementRecord;
use crate::model::WinnerElement;
use crate::model::distance_of;
use crate::model::eligible_pairs_spec;
use crate::model::first_occurrences;
use crate::model::key_distances;
use crate::model::key_of;
use crate::model::key_pred;
use crate::model::lemma_filter_push;
use crate::model::lemma_filter_subset;
use crate::model::lemma_max_retained_distance_ge;
use crate::model::max_retained_distance;
use crate::model::pair_element;
use crate::model::passes;
use crate::model::passes_pred;
use crate::model::record_keys;
use crate::model::retained_records;
use crate::model::vote_pred;
use crate::model::weight_of;

verus! {

/// The records that survive the threshold filter, in input order.
pub fn retain_records(
    records: &Vec<MeasurementRecord>,
    max_distance: u64,
) -> (out: Vec<MeasurementRecord>)
    ensures
        out@ == retained_records(records@, max_distance),
        forall|i: int| 0 <= i < out@.len() ==> passes(#[trigger] out@[i], max_distance),
{
    let mut out: Vec<MeasurementRecord> = Vec::new();
    proof {
        assert(records@.take(0) =~= Seq::<MeasurementRecord>::empty());
        reveal(Seq::filter);
    }
    let n = records.len();
    for i in 0..n
        invariant
            n == records@.len(),
            out@ == records@.take(i as int).filter(passes_pred(max_distance)),
            forall|j: int| 0 <= j < out@.len() ==> passes(#[trigger] out@[j], max_distance),
    {
        let r = records[i];
        proof {
            assert(records@.take(i + 1) =~= records@.take(i as int).push(records@[i as int]));
            lemma_filter_push(records@.take(i as int), passes_pred(max_distance), records@[i as int]);
        }
        let keep = match r.feature_distance {
            Some(d) => d <= max_distance,
            None => false,
        };
        if keep {
            out.push(r);
        }
    }
    proof {
        assert(records@.take(records@.len() as int) =~= records@);
    }
    out
}

/// The maximum distance among the retained records: the shared reference
/// against which every pair's weight is accumulated. `None` exactly when
/// nothing was retained.
pub fn reference_max(retained: &Vec<MeasurementRecord>) -> (r: Option<u64>)
    requires
        forall|i: int| 0 <= i < retained@.len() ==> (#[trigger] retained@[i]).feature_distance
            is Some,
    ensures
        r is Some <==> retained@.len() > 0,
        r matches Some(m) ==> m as int == max_retained_distance(retained@),
{
    let mut cur: Option<u64> = None;
    let n = retained.len();
    proof {
        assert(retained@.take(0) =~= Seq::<MeasurementRecord>::empty());
    }
    for i in 0..n
        invariant
            n == retained@.len(),
            forall|j: int| 0 <= j < retained@.len() ==> (#[trigger] retained@[j]).feature_distance
                is Some,
            cur is Some <==> i > 0,
            cur matches Some(m) ==> m as int == max_retained_distance(retained@.take(i as int)),
    {
        let r = &retained[i];
        proof {
            assert(retained@.take(i + 1).drop_last() =~= retained@.take(i as int));
            assert(retained@.take(i + 1).last() == retained@[i as int]);
            assert((#[trigger] retained@[i as int]).feature_distance is Some);
            assert(retained@.take(0).len() == 0);
            assert(max_retained_distance(retained@.take(0)) == -1);
        }
        let d = match r.feature_distance {
            Some(d) => d,
            None => 0,
        };
        cur = match cur {
            Some(m) => if d > m {
                Some(d)
            } else {
                Some(m)
            },
            None => Some(d),
        };
    }
    proof {
        assert(retained@.take(retained@.len() as int) =~= retained@);
    }
    cur
}

/// Collects the retained distances of the candidate pair `(q, c)`, in
/// input order.
pub fn collect_key_distances(
    retained: &Vec<MeasurementRecord>,
    q: u64,
    c: u64,
) -> (out: Vec<u64>)
    requires
        forall|i: int| 0 <= i < retained@.len() ==> (#[trigger] retained@[i]).feature_distance
            is Some,
    ensures
        out@ == key_distances(retained@, q, c),
{
    let mut out: Vec<u64> = Vec::new();
    let n = retained.len();
    proof {
        assert(retained@.take(0) =~= Seq::<MeasurementRecord>::empty());
        reveal(Seq::filter);
        assert(out@ =~= key_distances(retained@.take(0), q, c));
    }
    for i in 0..n
        invariant
            n == retained@.len(),
            forall|j: int| 0 <= j < retained@.len() ==> (#[trigger] retained@[j]).feature_distance
                is Some,
            out@ == key_distances(retained@.take(i as int), q, c),
    {
        let r = &retained[i];
        proof {
            let prefix = retained@.take(i as int);
            let rec = retained@[i as int];
            assert(retained@.take(i + 1) =~= prefix.push(rec));
            lemma_filter_push(prefix, key_pred(q, c), rec);
            if key_pred(q, c)(rec) {
                assert(key_distances(prefix.push(rec), q, c) =~= key_distances(prefix, q, c).push(
                    distance_of(rec),
                ));
            } else {
                assert(key_distances(prefix.push(rec), q, c) =~= key_distances(prefix, q, c));
            }
        }
        if r.query_id == q && r.candidate_id == c {
            let d = match r.feature_distance {
                Some(d) => d,
                None => 0,
            };
            out.push(d);
        }
    }
    proof {
        assert(retained@.take(retained@.len() as int) =~= retained@);
    }
    out
}

/// The distinct `(query_id, candidate_id)` keys of the retained records,
/// in order of first appearance.
pub fn distinct_keys(retained: &Vec<MeasurementRecord>) -> (out: Vec<(u64, u64)>)
    ensures
        out@ == first_occurrences(record_keys(retained@)),
{
    let mut out: Vec<(u64, u64)> = Vec::new();
    let n = retained.len();
    proof {
        assert(record_keys(retained@.take(0)) =~= Seq::<(u64, u64)>::empty());
    }
    for i in 0..n
        invariant
            n == retained@.len(),
            out@ == first_occurrences(record_keys(retained@.take(i as int))),
    {
        let r = &retained[i];
        let k = (r.query_id, r.candidate_id);
        proof {
            let prefix_keys = record_keys(retained@.take(i as int));
            assert(record_keys(retained@.take(i + 1)) =~= prefix_keys.push(
                key_of(retained@[i as int]),
            ));
            assert(record_keys(retained@.take(i + 1)).drop_last() =~= prefix_keys);
            assert(k == key_of(retained@[i as int]));
        }
        let present = contains_key(&out, k.0, k.1);
        if !present {
            out.push(k);
        }
    }
    proof {
        assert(retained@.take(retained@.len() as int) =~= retained@);
    }
    out
}

/// Linear membership test for a key among the keys seen so far.
fn contains_key(keys: &Vec<(u64, u64)>, q: u64, c: u64) -> (r: bool)
    ensures
        r <==> keys@.contains((q, c)),
{
    let n = keys.len();
    for i in 0..n
        invariant
            n == keys@.len(),
            forall|j: int| 0 <= j < i ==> keys@[j] != (q, c),
    {
        if keys[i].0 == q && keys[i].1 == c {
            proof {
                assert(keys@[i as int] == (q, c));
            }
            return true;
        }
    }
    false
}

/// Accumulates a pair's weight: the exact sum of `ref_max - d` over its
/// retained distances. The sum of at most `usize::MAX` terms, each at
/// most `u64::MAX`, always fits in a `u128`.
pub fn pair_weight(dists: &Vec<u64>, ref_max: u64) -> (w: u128)
    requires
        forall|i: int| 0 <= i < dists@.len() ==> #[trigger] dists@[i] <= ref_max,
    ensures
        w as int == weight_of(dists@, ref_max as int),
{
    let mut w: u128 = 0;
    let n = dists.len();
    proof {
        assert(dists@.take(0) =~= Seq::<u64>::empty());
    }
    for i in 0..n
        invariant
            n == dists@.len(),
            forall|j: int| 0 <= j < dists@.len() ==> #[trigger] dists@[j] <= ref_max,
            w as int == weight_of(dists@.take(i as int), ref_max as int),
            w as int <= i as int * (u64::MAX as int),
    {
        let d = dists[i];
        proof {
            assert(dists@.take(i + 1).drop_last() =~= dists@.take(i as int));
            assert(dists@.take(i + 1).last() == dists@[i as int]);
            assert((ref_max - d) as int <= u64::MAX as int);
            assert(w as int + (ref_max - d) as int <= (i as int + 1) * (u64::MAX as int)) by (nonlinear_arith)
                requires
                    w as int <= i as int * (u64::MAX as int),
                    (ref_max - d) as int <= u64::MAX as int,
                    i as int >= 0,
            ;
            assert((i as int + 1) * (u64::MAX as int) <= u128::MAX as int) by (nonlinear_arith)
                requires
                    0 <= i as int,
                    i as int + 1 <= 0x1_0000_0000_0000_0000,
            ;
        }
        w = w + ((ref_max - d) as u128);
    }
    proof {
        assert(dists@.take(dists@.len() as int) =~= dists@);
    }
    w
}

/// The filtering and weighting stage shared by both policies: applies
/// the threshold filter, fixes the reference maximum over the whole
/// filtered input, drops pairs with fewer than `min_votes` retained
/// measurements, and accumulates each surviving pair's weight.
///
/// Returns the eligible pairs (in order of first appearance) together
/// with the reference maximum (`None` exactly when nothing passed the
/// threshold filter, in which case no pair is eligible).
pub fn eligible_pairs(
    records: &Vec<MeasurementRecord>,
    max_distance: u64,
    min_votes: usize,
) -> (out: (Vec<WinnerElement>, Option<u64>))
    ensures
        out.0@ == eligible_pairs_spec(
            retained_records(records@, max_distance),
            max_retained_distance(retained_records(records@, max_distance)),
            min_votes,
        ),
        out.1 is Some <==> retained_records(records@, max_distance).len() > 0,
        out.1 matches Some(m) ==> m as int == max_retained_distance(
            retained_records(records@, max_distance),
        ),
{
    let retained = retain_records(records, max_distance);
    let ref_max_opt = reference_max(&retained);
    let ghost rspec = retained_records(records@, max_distance);
    let ghost rmax = max_retained_distance(rspec);
    let ref_max = match ref_max_opt {
        Some(m) => m,
        None => {
            proof {
                reveal(Seq::filter);
                assert(record_keys(retained@) =~= Seq::<(u64, u64)>::empty());
                assert(eligible_pairs_spec(rspec, rmax, min_votes) =~= Seq::<
                    WinnerElement,
                >::empty());
            }
            return (Vec::new(), None);
        },
    };
    let keys = distinct_keys(&retained);
    let mut out: Vec<WinnerElement> = Vec::new();
    let ghost ks = first_occurrences(record_keys(retained@));
    let n = keys.len();
    proof {
        assert(ks.take(0) =~= Seq::<(u64, u64)>::empty());
        reveal(Seq::filter);
    }
    for i in 0..n
        invariant
            n == keys@.len(),
            keys@ == ks,
            ks == first_occurrences(record_keys(rspec)),
            retained@ == rspec,
            rspec == retained_records(records@, max_distance),
            rmax == max_retained_distance(rspec),
            ref_max as int == rmax,
            forall|j: int| 0 <= j < retained@.len() ==> (#[trigger] retained@[j]).feature_distance
                is Some,
            out@ == ks.take(i as int).filter(vote_pred(rspec, min_votes)).map_values(
                pair_element(rspec, rmax),
            ),
    {
        let k = keys[i];
        let dists = collect_key_distances(&retained, k.0, k.1);
        proof {
            assert(ks.take(i + 1) =~= ks.take(i as int).push(ks[i as int]));
            lemma_filter_push(ks.take(i as int), vote_pred(rspec, min_votes), ks[i as int]);
            lemma_max_retained_distance_ge(rspec);
            lemma_filter_subset(rspec, key_pred(k.0, k.1));
            assert forall|j: int| 0 <= j < dists@.len() implies #[trigger] dists@[j]
                <= ref_max by {
                let filtered = rspec.filter(key_pred(k.0, k.1));
                assert(dists@[j] == distance_of(filtered[j]));
                assert(rspec.contains(filtered[j]));
                let jj = choose|jj: int| 0 <= jj < rspec.len() && rspec[jj] == filtered[j];
                assert(distance_of(rspec[jj]) as int <= rmax);
            }
        }
        if dists.len() >= min_votes {
            let w = pair_weight(&dists, ref_max);
            let elt = WinnerElement { query_track: k.0, winner_track: k.1, weight: w as u128 };
            proof {
                assert(elt == pair_element(rspec, rmax)(ks[i as int]));
                assert(out@.push(elt) =~= ks.take(i as int).filter(
                    vote_pred(rspec, min_votes),
                ).push(ks[i as int]).map_values(pair_element(rspec, rmax)));
            }
            out.push(elt);
        } else {
            proof {
                assert(!vote_pred(rspec, min_votes)(ks[i as int]));
            }
        }
    }
    proof {
        assert(ks.take(ks.len() as int) =~= ks);
    }
    (out, Some(ref_max))
}

} // verus!
