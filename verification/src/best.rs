//! Best-Fit (global-order) policy: candidate pairs are processed in one
//! globally weight-sorted list; a pair whose candidate is already
//! claimed is demoted to a self-loop rather than dropped, so every
//! originally-eligible pair yields an output entry.

use vstd::prelude::*;

use crate::model::MeasurementRecord;
use crate::model::WinnerElement;
use crate::model::eligible_pairs_spec;
use crate::model::first_occurrences;
use crate::model::lemma_filter_push;
use crate::model::max_retained_distance;
use crate::model::retained_records;
use crate::order::sort_desc;
use crate::order::sort_desc_spec;
use crate::stage::eligible_pairs;

verus! {

/// Demotes a losing pair to a self-loop: its winner becomes its own
/// query; weight is kept.
pub open spec fn demote(e: WinnerElement) -> WinnerElement {
    WinnerElement { winner_track: e.query_track, ..e }
}

/// Walks the sorted pairs once: an unclaimed candidate is claimed and
/// the pair kept; a claimed one demotes the pair to a self-loop.
pub open spec fn resolve_conflicts(
    s: Seq<WinnerElement>,
    claimed: Set<u64>,
) -> Seq<WinnerElement>
    decreases s.len(),
{
    if s.len() == 0 {
        s
    } else if claimed.contains(s.first().winner_track) {
        seq![demote(s.first())] + resolve_conflicts(s.drop_first(), claimed)
    } else {
        seq![s.first()] + resolve_conflicts(
            s.drop_first(),
            claimed.insert(s.first().winner_track),
        )
    }
}

/// The candidates claimed after walking `s` with `claimed` already
/// taken.
pub open spec fn claimed_after(s: Seq<WinnerElement>, claimed: Set<u64>) -> Set<u64>
    decreases s.len(),
{
    if s.len() == 0 {
        claimed
    } else if claimed.contains(s.first().winner_track) {
        claimed_after(s.drop_first(), claimed)
    } else {
        claimed_after(s.drop_first(), claimed.insert(s.first().winner_track))
    }
}

/// Unfolds one step of the walk at the right end of the sequence.
pub proof fn lemma_resolve_push(s: Seq<WinnerElement>, x: WinnerElement, claimed: Set<u64>)
    ensures
        resolve_conflicts(s.push(x), claimed) == resolve_conflicts(s, claimed) + (
        if claimed_after(s, claimed).contains(x.winner_track) {
            seq![demote(x)]
        } else {
            seq![x]
        }),
        claimed_after(s.push(x), claimed) == if claimed_after(s, claimed).contains(
            x.winner_track,
        ) {
            claimed_after(s, claimed)
        } else {
            claimed_after(s, claimed).insert(x.winner_track)
        },
    decreases s.len(),
{
    if s.len() == 0 {
        let empty = Seq::<WinnerElement>::empty();
        assert(s.push(x).drop_first() =~= empty);
        assert(s.push(x).first() == x);
        assert(s =~= empty);
        assert(resolve_conflicts(empty, claimed) == empty);
        assert(resolve_conflicts(empty, claimed.insert(x.winner_track)) == empty);
        assert(claimed_after(empty, claimed) == claimed);
        assert(claimed_after(empty, claimed.insert(x.winner_track)) == claimed.insert(
            x.winner_track,
        ));
        if claimed.contains(x.winner_track) {
            assert(resolve_conflicts(s.push(x), claimed) == seq![demote(x)] + empty);
            assert(seq![demote(x)] + empty =~= empty + seq![demote(x)]);
        } else {
            assert(resolve_conflicts(s.push(x), claimed) == seq![x] + empty);
            assert(seq![x] + empty =~= empty + seq![x]);
        }
    } else {
        assert(s.push(x).drop_first() =~= s.drop_first().push(x));
        assert(s.push(x).first() == s.first());
        if claimed.contains(s.first().winner_track) {
            lemma_resolve_push(s.drop_first(), x, claimed);
            assert(seq![demote(s.first())] + (resolve_conflicts(s.drop_first(), claimed) + (
            if claimed_after(s.drop_first(), claimed).contains(x.winner_track) {
                seq![demote(x)]
            } else {
                seq![x]
            })) =~= (seq![demote(s.first())] + resolve_conflicts(s.drop_first(), claimed)) + (
            if claimed_after(s.drop_first(), claimed).contains(x.winner_track) {
                seq![demote(x)]
            } else {
                seq![x]
            }));
        } else {
            let claimed2 = claimed.insert(s.first().winner_track);
            lemma_resolve_push(s.drop_first(), x, claimed2);
            assert(seq![s.first()] + (resolve_conflicts(s.drop_first(), claimed2) + (
            if claimed_after(s.drop_first(), claimed2).contains(x.winner_track) {
                seq![demote(x)]
            } else {
                seq![x]
            })) =~= (seq![s.first()] + resolve_conflicts(s.drop_first(), claimed2)) + (
            if claimed_after(s.drop_first(), claimed2).contains(x.winner_track) {
                seq![demote(x)]
            } else {
                seq![x]
            }));
        }
    }
}

/// Linear membership test among the claimed candidate ids.
fn contains_id(ids: &Vec<u64>, x: u64) -> (r: bool)
    ensures
        r <==> ids@.contains(x),
{
    let n = ids.len();
    for i in 0..n
        invariant
            n == ids@.len(),
            forall|j: int| 0 <= j < i ==> ids@[j] != x,
    {
        if ids[i] == x {
            proof {
                assert(ids@[i as int] == x);
            }
            return true;
        }
    }
    false
}

/// Resolves conflicts over the globally sorted list, demoting losers to
/// self-loops.
pub fn resolve_best_fit(sorted: &Vec<WinnerElement>) -> (out: Vec<WinnerElement>)
    ensures
        out@ == resolve_conflicts(sorted@, Set::empty()),
{
    let mut out: Vec<WinnerElement> = Vec::new();
    let mut claimed: Vec<u64> = Vec::new();
    let n = sorted.len();
    proof {
        assert(sorted@.take(0) =~= Seq::<WinnerElement>::empty());
    }
    for i in 0..n
        invariant
            n == sorted@.len(),
            out@ == resolve_conflicts(sorted@.take(i as int), Set::empty()),
            forall|w: u64| claimed@.contains(w) <==> claimed_after(
                sorted@.take(i as int),
                Set::empty(),
            ).contains(w),
    {
        let e = sorted[i];
        let ghost prefix = sorted@.take(i as int);
        let ghost cl = claimed_after(prefix, Set::<u64>::empty());
        proof {
            assert(sorted@.take(i + 1) =~= prefix.push(sorted@[i as int]));
            lemma_resolve_push(prefix, sorted@[i as int], Set::<u64>::empty());
        }
        let taken = contains_id(&claimed, e.winner_track);
        if taken {
            let d = WinnerElement {
                query_track: e.query_track,
                winner_track: e.query_track,
                weight: e.weight,
            };
            proof {
                assert(cl.contains(e.winner_track));
                assert(d == demote(e));
                assert(out@.push(d) =~= resolve_conflicts(prefix, Set::<u64>::empty())
                    + seq![demote(e)]);
            }
            out.push(d);
        } else {
            proof {
                assert(!cl.contains(e.winner_track));
                assert(out@.push(e) =~= resolve_conflicts(prefix, Set::<u64>::empty()) + seq![e]);
            }
            out.push(e);
            let ghost old_ids = claimed@;
            claimed.push(e.winner_track);
            proof {
                assert(claimed@ == old_ids.push(e.winner_track));
                assert forall|w: u64| claimed@.contains(w) <==> cl.insert(
                    e.winner_track,
                ).contains(w) by {
                    if claimed@.contains(w) {
                        let j = choose|j: int| 0 <= j < claimed@.len() && claimed@[j] == w;
                        if j < old_ids.len() {
                            assert(old_ids[j] == w);
                            assert(old_ids.contains(w));
                        } else {
                            assert(w == e.winner_track);
                        }
                    }
                    if cl.insert(e.winner_track).contains(w) {
                        if w == e.winner_track {
                            assert(claimed@[claimed@.len() - 1] == w);
                        } else {
                            assert(cl.contains(w));
                            assert(old_ids.contains(w));
                            let j = choose|j: int| 0 <= j < old_ids.len() && old_ids[j] == w;
                            assert(claimed@[j] == w);
                        }
                    }
                }
            }
        }
    }
    proof {
        assert(sorted@.take(sorted@.len() as int) =~= sorted@);
    }
    out
}

pub open spec fn query_pred(q: u64) -> spec_fn(WinnerElement) -> bool {
    |e: WinnerElement| e.query_track == q
}

/// The distinct query ids of a sequence of entries, in order of first
/// appearance.
pub open spec fn queries_of(s: Seq<WinnerElement>) -> Seq<u64> {
    first_occurrences(s.map_values(|e: WinnerElement| e.query_track))
}

pub open spec fn query_entry(s: Seq<WinnerElement>) -> spec_fn(u64) -> (u64, Seq<WinnerElement>) {
    |q: u64| (q, s.filter(query_pred(q)))
}

/// The final mapping: each query of `s`, in order of first appearance,
/// paired with all of its entries.
pub open spec fn result_map_spec(s: Seq<WinnerElement>) -> Seq<(u64, Seq<WinnerElement>)> {
    queries_of(s).map_values(query_entry(s))
}

/// View of the executable mapping as its mathematical counterpart.
pub open spec fn entries_view(v: Seq<(u64, Vec<WinnerElement>)>) -> Seq<(u64, Seq<WinnerElement>)> {
    v.map_values(|p: (u64, Vec<WinnerElement>)| (p.0, p.1@))
}

/// Linear membership test among the query ids seen so far.
fn contains_query(ids: &Vec<u64>, x: u64) -> (r: bool)
    ensures
        r <==> ids@.contains(x),
{
    let n = ids.len();
    for i in 0..n
        invariant
            n == ids@.len(),
            forall|j: int| 0 <= j < i ==> ids@[j] != x,
    {
        if ids[i] == x {
            proof {
                assert(ids@[i as int] == x);
            }
            return true;
        }
    }
    false
}

/// The distinct query ids of `s`, in order of first appearance.
pub fn distinct_queries(s: &Vec<WinnerElement>) -> (out: Vec<u64>)
    ensures
        out@ == queries_of(s@),
{
    let mut out: Vec<u64> = Vec::new();
    let n = s.len();
    proof {
        assert(s@.take(0).map_values(|e: WinnerElement| e.query_track) =~= Seq::<u64>::empty());
    }
    for i in 0..n
        invariant
            n == s@.len(),
            out@ == queries_of(s@.take(i as int)),
    {
        let q = s[i].query_track;
        proof {
            let pm = s@.take(i as int).map_values(|e: WinnerElement| e.query_track);
            assert(s@.take(i + 1).map_values(|e: WinnerElement| e.query_track) =~= pm.push(
                s@[i as int].query_track,
            ));
            assert(s@.take(i + 1).map_values(|e: WinnerElement| e.query_track).drop_last()
                =~= pm);
        }
        let present = contains_query(&out, q);
        if !present {
            out.push(q);
        }
    }
    proof {
        assert(s@.take(s@.len() as int) =~= s@);
    }
    out
}

/// All entries of `s` whose query is `q`, in order.
pub fn entries_for_query(s: &Vec<WinnerElement>, q: u64) -> (out: Vec<WinnerElement>)
    ensures
        out@ == s@.filter(query_pred(q)),
{
    let mut out: Vec<WinnerElement> = Vec::new();
    let n = s.len();
    proof {
        assert(s@.take(0) =~= Seq::<WinnerElement>::empty());
        reveal(Seq::filter);
    }
    for i in 0..n
        invariant
            n == s@.len(),
            out@ == s@.take(i as int).filter(query_pred(q)),
    {
        let e = s[i];
        proof {
            assert(s@.take(i + 1) =~= s@.take(i as int).push(s@[i as int]));
            lemma_filter_push(s@.take(i as int), query_pred(q), s@[i as int]);
        }
        if e.query_track == q {
            out.push(e);
        }
    }
    proof {
        assert(s@.take(s@.len() as int) =~= s@);
    }
    out
}

/// Groups the resolved entries by query id into the final mapping.
pub fn group_by_query(s: &Vec<WinnerElement>) -> (out: Vec<(u64, Vec<WinnerElement>)>)
    ensures
        entries_view(out@) == result_map_spec(s@),
{
    let queries = distinct_queries(s);
    let mut out: Vec<(u64, Vec<WinnerElement>)> = Vec::new();
    let n = queries.len();
    proof {
        assert(entries_view(out@) =~= queries_of(s@).take(0).map_values(query_entry(s@)));
    }
    for i in 0..n
        invariant
            n == queries@.len(),
            queries@ == queries_of(s@),
            entries_view(out@) == queries_of(s@).take(i as int).map_values(query_entry(s@)),
    {
        let q = queries[i];
        let entries = entries_for_query(s, q);
        proof {
            let ks = queries_of(s@);
            assert(ks.take(i + 1) =~= ks.take(i as int).push(ks[i as int]));
            let lhs = entries_view(out@.push((q, entries)));
            let rhs = ks.take(i + 1).map_values(query_entry(s@));
            assert(entries_view(out@).len() == out@.len());
            assert(lhs.len() == rhs.len());
            assert forall|k: int| 0 <= k < lhs.len() implies lhs[k] == rhs[k] by {
                if k < out@.len() {
                    assert(lhs[k] == entries_view(out@)[k]);
                    assert(rhs[k] == query_entry(s@)(ks.take(i as int)[k]));
                    assert(entries_view(out@)[k] == ks.take(i as int).map_values(
                        query_entry(s@),
                    )[k]);
                } else {
                    assert(q == ks[i as int]);
                    assert(lhs[k] == (q, entries@));
                    assert(rhs[k] == query_entry(s@)(ks[i as int]));
                    assert(query_entry(s@)(q) == (q, s@.filter(query_pred(q))));
                    assert(entries@ == s@.filter(query_pred(q)));
                }
            }
            assert(lhs =~= rhs);
        }
        out.push((q, entries));
    }
    proof {
        assert(queries_of(s@).take(queries_of(s@).len() as int) =~= queries_of(s@));
    }
    out
}

/// The Best-Fit result as a closed function of the input: filtering and
/// weighting, the global descending sort, conflict resolution, and
/// grouping by query.
pub open spec fn best_fit_winners_spec(
    records: Seq<MeasurementRecord>,
    max_distance: u64,
    min_votes: usize,
) -> Seq<(u64, Seq<WinnerElement>)> {
    let retained = retained_records(records, max_distance);
    let eligible = eligible_pairs_spec(retained, max_retained_distance(retained), min_votes);
    result_map_spec(resolve_conflicts(sort_desc_spec(eligible), Set::empty()))
}

/// Best-Fit voting engine: resolves conflicts by processing all
/// candidate pairs in one globally weight-sorted list.
pub struct BestFitVoting {
    pub max_distance: u64,
    pub min_votes: usize,
}

impl BestFitVoting {
    /// Constructs a new engine.
    ///
    /// `max_distance` is the inclusive upper bound on acceptable
    /// fixed-point feature distances; `min_votes` is the minimal number
    /// of corroborating measurements a candidate pair needs.
    pub fn new(max_distance: u64, min_votes: usize) -> (s: Self)
        ensures
            s.max_distance == max_distance,
            s.min_votes == min_votes,
    {
        BestFitVoting { max_distance, min_votes }
    }

    /// Computes the winners mapping: each query that had at least one
    /// eligible candidate pair, in order of first appearance, with its
    /// (kept or demoted) entries.
    pub fn winners(&self, distances: &Vec<MeasurementRecord>) -> (res: Vec<
        (u64, Vec<WinnerElement>),
    >)
        ensures
            entries_view(res@) == best_fit_winners_spec(
                distances@,
                self.max_distance,
                self.min_votes,
            ),
    {
        let (eligible, _ref_max) = eligible_pairs(distances, self.max_distance, self.min_votes);
        let sorted = sort_desc(&eligible);
        let resolved = resolve_best_fit(&sorted);
        group_by_query(&resolved)
    }
}

} // verus!
