//! Best-Fit-with-Fallback policy: conflicts are resolved per query. Each
//! query tries its own candidates in descending-weight order and takes
//! the first unclaimed one; when every candidate is already claimed the
//! query falls back to a self-loop of weight zero.

use vstd::prelude::*;

use crate::best::entries_view;
use crate::best::queries_of;
use crate::best::query_pred;
use crate::model::MeasurementRecord;
use crate::model::WinnerElement;
use crate::model::eligible_pairs_spec;
use crate::model::max_retained_distance;
use crate::model::retained_records;
use crate::order::sort_desc;
use crate::order::sort_desc_spec;
use crate::stage::eligible_pairs;

verus! {

/// The fallback entry of a query whose candidates are all claimed.
pub open spec fn self_loop(q: u64) -> WinnerElement {
    WinnerElement { query_track: q, winner_track: q, weight: 0 }
}

pub open spec fn sorted_query_entry(s: Seq<WinnerElement>) -> spec_fn(u64) -> (
    u64,
    Seq<WinnerElement>,
) {
    |q: u64| (q, sort_desc_spec(s.filter(query_pred(q))))
}

/// The eligible pairs grouped by query (in order of first appearance of
/// the query), each group sorted by descending weight.
pub open spec fn per_query_groups_spec(s: Seq<WinnerElement>) -> Seq<(u64, Seq<WinnerElement>)> {
    queries_of(s).map_values(sorted_query_entry(s))
}

/// The first candidate whose winner is not yet claimed, scanning in
/// order.
pub open spec fn pick_first_free(cands: Seq<WinnerElement>, claimed: Set<u64>) -> Option<
    WinnerElement,
>
    decreases cands.len(),
{
    if cands.len() == 0 {
        None
    } else if !claimed.contains(cands.first().winner_track) {
        Some(cands.first())
    } else {
        pick_first_free(cands.drop_first(), claimed)
    }
}

/// Walks the query groups once, assigning each query its best available
/// candidate, or a zero-weight self-loop when none is available.
pub open spec fn assign_queries(
    groups: Seq<(u64, Seq<WinnerElement>)>,
    claimed: Set<u64>,
) -> Seq<(u64, Seq<WinnerElement>)>
    decreases groups.len(),
{
    if groups.len() == 0 {
        groups
    } else {
        let q = groups.first().0;
        match pick_first_free(groups.first().1, claimed) {
            Some(e) => seq![(q, seq![e])] + assign_queries(
                groups.drop_first(),
                claimed.insert(e.winner_track),
            ),
            None => seq![(q, seq![self_loop(q)])] + assign_queries(groups.drop_first(), claimed),
        }
    }
}

/// The candidates claimed after walking `groups` with `claimed` already
/// taken.
pub open spec fn fb_claimed_after(
    groups: Seq<(u64, Seq<WinnerElement>)>,
    claimed: Set<u64>,
) -> Set<u64>
    decreases groups.len(),
{
    if groups.len() == 0 {
        claimed
    } else {
        match pick_first_free(groups.first().1, claimed) {
            Some(e) => fb_claimed_after(groups.drop_first(), claimed.insert(e.winner_track)),
            None => fb_claimed_after(groups.drop_first(), claimed),
        }
    }
}

/// Unfolds one step of the walk at the right end of the group list.
pub proof fn lemma_assign_push(
    groups: Seq<(u64, Seq<WinnerElement>)>,
    x: (u64, Seq<WinnerElement>),
    claimed: Set<u64>,
)
    ensures
        assign_queries(groups.push(x), claimed) == assign_queries(groups, claimed) + (
        match pick_first_free(x.1, fb_claimed_after(groups, claimed)) {
            Some(e) => seq![(x.0, seq![e])],
            None => seq![(x.0, seq![self_loop(x.0)])],
        }),
        fb_claimed_after(groups.push(x), claimed) == (
        match pick_first_free(x.1, fb_claimed_after(groups, claimed)) {
            Some(e) => fb_claimed_after(groups, claimed).insert(e.winner_track),
            None => fb_claimed_after(groups, claimed),
        }),
    decreases groups.len(),
{
    if groups.len() == 0 {
        let empty = Seq::<(u64, Seq<WinnerElement>)>::empty();
        assert(groups =~= empty);
        assert(groups.push(x).drop_first() =~= empty);
        assert(groups.push(x).first() == x);
        match pick_first_free(x.1, claimed) {
            Some(e) => {
                assert(assign_queries(empty, claimed.insert(e.winner_track)) == empty);
                assert(fb_claimed_after(empty, claimed.insert(e.winner_track)) == claimed.insert(
                    e.winner_track,
                ));
                assert(assign_queries(groups.push(x), claimed) == seq![(x.0, seq![e])] + empty);
                assert(seq![(x.0, seq![e])] + empty =~= empty + seq![(x.0, seq![e])]);
            },
            None => {
                assert(assign_queries(empty, claimed) == empty);
                assert(fb_claimed_after(empty, claimed) == claimed);
                assert(assign_queries(groups.push(x), claimed) == seq![(x.0, seq![self_loop(x.0)])]
                    + empty);
                assert(seq![(x.0, seq![self_loop(x.0)])] + empty =~= empty + seq![
                    (x.0, seq![self_loop(x.0)]),
                ]);
            },
        }
    } else {
        assert(groups.push(x).drop_first() =~= groups.drop_first().push(x));
        assert(groups.push(x).first() == groups.first());
        match pick_first_free(groups.first().1, claimed) {
            Some(e) => {
                let claimed2 = claimed.insert(e.winner_track);
                lemma_assign_push(groups.drop_first(), x, claimed2);
                let head = seq![(groups.first().0, seq![e])];
                let tail = assign_queries(groups.drop_first(), claimed2);
                let step = match pick_first_free(x.1, fb_claimed_after(groups.drop_first(), claimed2)) {
                    Some(e2) => seq![(x.0, seq![e2])],
                    None => seq![(x.0, seq![self_loop(x.0)])],
                };
                assert(head + (tail + step) =~= (head + tail) + step);
            },
            None => {
                lemma_assign_push(groups.drop_first(), x, claimed);
                let head = seq![(groups.first().0, seq![self_loop(groups.first().0)])];
                let tail = assign_queries(groups.drop_first(), claimed);
                let step = match pick_first_free(x.1, fb_claimed_after(groups.drop_first(), claimed)) {
                    Some(e2) => seq![(x.0, seq![e2])],
                    None => seq![(x.0, seq![self_loop(x.0)])],
                };
                assert(head + (tail + step) =~= (head + tail) + step);
            },
        }
    }
}

/// Pushing one pair onto the executable mapping pushes its view.
pub proof fn lemma_entries_view_push(v: Seq<(u64, Vec<WinnerElement>)>, p: (u64, Vec<WinnerElement>))
    ensures
        entries_view(v.push(p)) == entries_view(v).push((p.0, p.1@)),
{
    assert(entries_view(v.push(p)) =~= entries_view(v).push((p.0, p.1@)));
}

/// Linear membership test among the claimed candidate ids.
fn contains_id(ids: &Vec<u64>, x: u64) -> (r: bool)
    ensures
        r <==> ids@.contains(x),
{
    let n = ids.len();
    for i in 0..n
        invariant
            n == ids@.len(),
            forall|j: int| 0 <= j < i ==> ids@[j] != x,
    {
        if ids[i] == x {
            proof {
                assert(ids@[i as int] == x);
            }
            return true;
        }
    }
    false
}

/// Scans a query's sorted candidates for the first unclaimed winner.
fn pick_free(
    cands: &Vec<WinnerElement>,
    claimed: &Vec<u64>,
    cl: Ghost<Set<u64>>,
) -> (r: Option<WinnerElement>)
    requires
        forall|w: u64| claimed@.contains(w) <==> cl@.contains(w),
    ensures
        r == pick_first_free(cands@, cl@),
{
    let n = cands.len();
    proof {
        assert(cands@.skip(0) =~= cands@);
    }
    for j in 0..n
        invariant
            n == cands@.len(),
            forall|w: u64| claimed@.contains(w) <==> cl@.contains(w),
            pick_first_free(cands@, cl@) == pick_first_free(cands@.skip(j as int), cl@),
    {
        let e = cands[j];
        proof {
            assert(cands@.skip(j as int).len() > 0);
            assert(cands@.skip(j as int).first() == cands@[j as int]);
            assert(cands@.skip(j as int).drop_first() =~= cands@.skip(j + 1));
        }
        let taken = contains_id(claimed, e.winner_track);
        if !taken {
            return Some(e);
        }
    }
    proof {
        assert(cands@.skip(cands@.len() as int) =~= Seq::<WinnerElement>::empty());
    }
    None
}

/// All entries of `s` whose query is `q`, sorted by descending weight.
fn sorted_entries_for_query(s: &Vec<WinnerElement>, q: u64) -> (out: Vec<WinnerElement>)
    ensures
        out@ == sort_desc_spec(s@.filter(query_pred(q))),
{
    let entries = crate::best::entries_for_query(s, q);
    sort_desc(&entries)
}

/// Groups the eligible pairs by query, each group sorted by descending
/// weight, queries in order of first appearance.
pub fn per_query_groups(s: &Vec<WinnerElement>) -> (out: Vec<(u64, Vec<WinnerElement>)>)
    ensures
        entries_view(out@) == per_query_groups_spec(s@),
{
    let queries = crate::best::distinct_queries(s);
    let mut out: Vec<(u64, Vec<WinnerElement>)> = Vec::new();
    let n = queries.len();
    proof {
        assert(entries_view(out@) =~= queries_of(s@).take(0).map_values(sorted_query_entry(s@)));
    }
    for i in 0..n
        invariant
            n == queries@.len(),
            queries@ == queries_of(s@),
            entries_view(out@) == queries_of(s@).take(i as int).map_values(sorted_query_entry(s@)),
    {
        let q = queries[i];
        let entries = sorted_entries_for_query(s, q);
        proof {
            let ks = queries_of(s@);
            assert(ks.take(i + 1) =~= ks.take(i as int).push(ks[i as int]));
            let lhs = entries_view(out@.push((q, entries)));
            let rhs = ks.take(i + 1).map_values(sorted_query_entry(s@));
            assert(entries_view(out@).len() == out@.len());
            assert(lhs.len() == rhs.len());
            assert forall|k: int| 0 <= k < lhs.len() implies lhs[k] == rhs[k] by {
                if k < out@.len() {
                    assert(lhs[k] == entries_view(out@)[k]);
                    assert(rhs[k] == sorted_query_entry(s@)(ks.take(i as int)[k]));
                    assert(entries_view(out@)[k] == ks.take(i as int).map_values(
                        sorted_query_entry(s@),
                    )[k]);
                } else {
                    assert(q == ks[i as int]);
                    assert(lhs[k] == (q, entries@));
                    assert(rhs[k] == sorted_query_entry(s@)(ks[i as int]));
                    assert(sorted_query_entry(s@)(q) == (
                        q,
                        sort_desc_spec(s@.filter(query_pred(q))),
                    ));
                }
            }
            assert(lhs =~= rhs);
        }
        out.push((q, entries));
    }
    proof {
        assert(queries_of(s@).take(queries_of(s@).len() as int) =~= queries_of(s@));
    }
    out
}

/// Assigns each query group its best available candidate, falling back
/// to a zero-weight self-loop.
pub fn assign_fallback(groups: &Vec<(u64, Vec<WinnerElement>)>) -> (out: Vec<
    (u64, Vec<WinnerElement>),
>)
    ensures
        entries_view(out@) == assign_queries(entries_view(groups@), Set::empty()),
{
    let mut out: Vec<(u64, Vec<WinnerElement>)> = Vec::new();
    let mut claimed: Vec<u64> = Vec::new();
    let ghost gv = entries_view(groups@);
    let n = groups.len();
    proof {
        assert(gv.take(0) =~= Seq::<(u64, Seq<WinnerElement>)>::empty());
    }
    for i in 0..n
        invariant
            n == groups@.len(),
            gv == entries_view(groups@),
            entries_view(out@) == assign_queries(gv.take(i as int), Set::empty()),
            forall|w: u64| claimed@.contains(w) <==> fb_claimed_after(
                gv.take(i as int),
                Set::empty(),
            ).contains(w),
    {
        let q = groups[i].0;
        let ghost prefix = gv.take(i as int);
        let ghost cl = fb_claimed_after(prefix, Set::<u64>::empty());
        proof {
            assert(gv.take(i + 1) =~= prefix.push(gv[i as int]));
            lemma_assign_push(prefix, gv[i as int], Set::<u64>::empty());
            assert(gv[i as int] == (groups@[i as int].0, groups@[i as int].1@));
        }
        let picked = pick_free(&groups[i].1, &claimed, Ghost(cl));
        match picked {
            Some(e) => {
                let mut entry: Vec<WinnerElement> = Vec::new();
                entry.push(e);
                proof {
                    assert(entry@ =~= seq![e]);
                    lemma_entries_view_push(out@, (q, entry));
                    assert(entries_view(out@).push((q, entry@)) =~= entries_view(out@) + seq![
                        (q, seq![e]),
                    ]);
                }
                out.push((q, entry));
                let ghost old_ids = claimed@;
                claimed.push(e.winner_track);
                proof {
                    assert(claimed@ == old_ids.push(e.winner_track));
                    assert forall|w: u64| claimed@.contains(w) <==> cl.insert(
                        e.winner_track,
                    ).contains(w) by {
                        if claimed@.contains(w) {
                            let j = choose|j: int| 0 <= j < claimed@.len() && claimed@[j] == w;
                            if j < old_ids.len() {
                                assert(old_ids[j] == w);
                                assert(old_ids.contains(w));
                            } else {
                                assert(w == e.winner_track);
                            }
                        }
                        if cl.insert(e.winner_track).contains(w) {
                            if w == e.winner_track {
                                assert(claimed@[claimed@.len() - 1] == w);
                            } else {
                                assert(cl.contains(w));
                                assert(old_ids.contains(w));
                                let j = choose|j: int|
                                    0 <= j < old_ids.len() && old_ids[j] == w;
                                assert(claimed@[j] == w);
                            }
                        }
                    }
                }
            },
            None => {
                let e = WinnerElement { query_track: q, winner_track: q, weight: 0 };
                let mut entry: Vec<WinnerElement> = Vec::new();
                entry.push(e);
                proof {
                    assert(e == self_loop(q));
                    assert(entry@ =~= seq![self_loop(q)]);
                    lemma_entries_view_push(out@, (q, entry));
                    assert(entries_view(out@).push((q, entry@)) =~= entries_view(out@) + seq![
                        (q, seq![self_loop(q)]),
                    ]);
                }
                out.push((q, entry));
            },
        }
    }
    proof {
        assert(gv.take(gv.len() as int) =~= gv);
    }
    out
}

/// The Fallback result as a closed function of the input: filtering and
/// weighting, per-query grouping and sorting, and the per-query
/// assignment walk.
pub open spec fn fallback_winners_spec(
    records: Seq<MeasurementRecord>,
    max_distance: u64,
    min_votes: usize,
) -> Seq<(u64, Seq<WinnerElement>)> {
    let retained = retained_records(records, max_distance);
    let eligible = eligible_pairs_spec(retained, max_retained_distance(retained), min_votes);
    assign_queries(per_query_groups_spec(eligible), Set::empty())
}

/// Best-Fit voting engine with fallback: resolves conflicts per query,
/// trying each query's own candidates in its locally sorted order and
/// falling back to "match to self" when all of them are taken.
pub struct BestFitVotingWithFallback {
    pub max_distance: u64,
    pub min_votes: usize,
}

impl BestFitVotingWithFallback {
    /// Constructs a new engine.
    ///
    /// `max_distance` is the inclusive upper bound on acceptable
    /// fixed-point feature distances; `min_votes` is the minimal number
    /// of corroborating measurements a candidate pair needs.
    pub fn new(max_distance: u64, min_votes: usize) -> (s: Self)
        ensures
            s.max_distance == max_distance,
            s.min_votes == min_votes,
    {
        BestFitVotingWithFallback { max_distance, min_votes }
    }

    /// Computes the winners mapping: exactly one entry per query that
    /// had at least one eligible candidate pair, either its best
    /// available candidate or a zero-weight self-loop.
    pub fn winners(&self, distances: &Vec<MeasurementRecord>) -> (res: Vec<
        (u64, Vec<WinnerElement>),
    >)
        ensures
            entries_view(res@) == fallback_winners_spec(
                distances@,
                self.max_distance,
                self.min_votes,
            ),
    {
        let (eligible, _ref_max) = eligible_pairs(distances, self.max_distance, self.min_votes);
        let groups = per_query_groups(&eligible);
        assign_fallback(&groups)
    }
}

} // verus!
