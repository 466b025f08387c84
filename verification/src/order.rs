//! Deterministic ordering of candidate pairs: descending by weight, ties
//! broken by ascending query id, then ascending winner id. The tie-break
//! makes the order total, so the sorted sequence — and with it the whole
//! kernel — is a function of the input alone.

use vstd::prelude::*;

use crate::model::WinnerElement;

verus! {

/// `a` comes no later than `b`: higher weight first, then lower query
/// id, then lower winner id.
pub open spec fn precedes(a: WinnerElement, b: WinnerElement) -> bool {
    ||| a.weight > b.weight
    ||| (a.weight == b.weight && a.query_track < b.query_track)
    ||| (a.weight == b.weight && a.query_track == b.query_track && a.winner_track
        <= b.winner_track)
}

/// Every pair of elements is ordered one way or the other.
pub proof fn lemma_precedes_total(a: WinnerElement, b: WinnerElement)
    ensures
        precedes(a, b) || precedes(b, a),
        precedes(a, b) && precedes(b, a) ==> a == b,
{
}

/// `s` is sorted by `precedes`.
pub open spec fn sorted_desc(s: Seq<WinnerElement>) -> bool {
    forall|i: int, j: int| 0 <= i <= j < s.len() ==> precedes(#[trigger] s[i], #[trigger] s[j])
}

/// Inserts `x` into `s` before the first element that `x` precedes.
pub open spec fn insert_ordered(s: Seq<WinnerElement>, x: WinnerElement) -> Seq<WinnerElement>
    decreases s.len(),
{
    if s.len() == 0 {
        seq![x]
    } else if precedes(x, s.first()) {
        seq![x] + s
    } else {
        seq![s.first()] + insert_ordered(s.drop_first(), x)
    }
}

/// Insertion sort of the candidate pairs, written as a spec so that the
/// kernel's result is a closed function of its input.
pub open spec fn sort_desc_spec(s: Seq<WinnerElement>) -> Seq<WinnerElement>
    decreases s.len(),
{
    if s.len() == 0 {
        s
    } else {
        insert_ordered(sort_desc_spec(s.drop_last()), s.last())
    }
}

/// `insert_ordered` places `x` exactly at the first index whose element
/// `x` precedes.
proof fn lemma_insert_ordered_at(s: Seq<WinnerElement>, x: WinnerElement, idx: int)
    requires
        0 <= idx <= s.len(),
        forall|j: int| 0 <= j < idx ==> !precedes(x, #[trigger] s[j]),
        idx < s.len() ==> precedes(x, s[idx]),
    ensures
        insert_ordered(s, x) == s.insert(idx, x),
    decreases s.len(),
{
    if s.len() == 0 {
        assert(insert_ordered(s, x) =~= s.insert(0, x));
    } else if idx == 0 {
        assert(precedes(x, s.first()));
        assert(seq![x] + s =~= s.insert(0, x));
    } else {
        assert(!precedes(x, s[0]));
        lemma_insert_ordered_at(s.drop_first(), x, idx - 1);
        assert(seq![s.first()] + s.drop_first().insert(idx - 1, x) =~= s.insert(idx, x));
    }
}

/// Inserting into a sorted sequence keeps it sorted and adds exactly the
/// new element.
pub proof fn lemma_insert_ordered_ensures(s: Seq<WinnerElement>, x: WinnerElement)
    requires
        sorted_desc(s),
    ensures
        sorted_desc(insert_ordered(s, x)),
        insert_ordered(s, x).to_multiset() == s.to_multiset().insert(x),
        insert_ordered(s, x).len() == s.len() + 1,
    decreases s.len(),
{
    broadcast use vstd::seq_lib::group_to_multiset_ensures;

    let out = insert_ordered(s, x);
    if s.len() == 0 {
        assert(out =~= Seq::<WinnerElement>::empty().push(x));
        assert(out.to_multiset() =~= s.to_multiset().insert(x));
    } else if precedes(x, s.first()) {
        assert(out =~= Seq::<WinnerElement>::empty().push(x) + s);
        vstd::seq_lib::lemma_multiset_commutative(Seq::<WinnerElement>::empty().push(x), s);
        assert(out.to_multiset() =~= s.to_multiset().insert(x));
        assert forall|i: int, j: int|
            0 <= i <= j < out.len() implies precedes(#[trigger] out[i], #[trigger] out[j]) by {
            if i == 0 && j > 0 {
                assert(out[j] == s[j - 1]);
                assert(precedes(s.first(), s[j - 1]));
                lemma_precedes_transitive(x, s.first(), s[j - 1]);
            } else if i > 0 {
                assert(out[i] == s[i - 1]);
                assert(out[j] == s[j - 1]);
            }
        }
    } else {
        let rest = s.drop_first();
        assert(sorted_desc(rest)) by {
            assert forall|i: int, j: int|
                0 <= i <= j < rest.len() implies precedes(#[trigger] rest[i], #[trigger] rest[j]) by {
                assert(rest[i] == s[i + 1]);
                assert(rest[j] == s[j + 1]);
            }
        }
        lemma_insert_ordered_ensures(rest, x);
        let sub = insert_ordered(rest, x);
        assert(out =~= Seq::<WinnerElement>::empty().push(s.first()) + sub);
        vstd::seq_lib::lemma_multiset_commutative(
            Seq::<WinnerElement>::empty().push(s.first()),
            sub,
        );
        assert(s =~= Seq::<WinnerElement>::empty().push(s.first()) + rest);
        vstd::seq_lib::lemma_multiset_commutative(
            Seq::<WinnerElement>::empty().push(s.first()),
            rest,
        );
        assert(out.to_multiset() =~= s.to_multiset().insert(x));
        assert forall|i: int, j: int|
            0 <= i <= j < out.len() implies precedes(#[trigger] out[i], #[trigger] out[j]) by {
            lemma_precedes_total(x, s.first());
            if i == 0 && j > 0 {
                assert(out[j] == sub[j - 1]);
                assert(sub.to_multiset().contains(sub[j - 1]));
                if sub[j - 1] == x {
                    assert(precedes(s.first(), x));
                } else {
                    assert(rest.to_multiset().contains(sub[j - 1]));
                    let k = choose|k: int| 0 <= k < rest.len() && rest[k] == sub[j - 1];
                    assert(rest[k] == s[k + 1]);
                    assert(precedes(s.first(), s[k + 1]));
                }
            } else if i > 0 {
                assert(out[i] == sub[i - 1]);
                assert(out[j] == sub[j - 1]);
            }
        }
    }
}

/// `precedes` is transitive.
pub proof fn lemma_precedes_transitive(a: WinnerElement, b: WinnerElement, c: WinnerElement)
    requires
        precedes(a, b),
        precedes(b, c),
    ensures
        precedes(a, c),
{
}

/// The sorted sequence is sorted and is a permutation of its input.
pub proof fn lemma_sort_desc_spec_ensures(s: Seq<WinnerElement>)
    ensures
        sorted_desc(sort_desc_spec(s)),
        sort_desc_spec(s).to_multiset() == s.to_multiset(),
        sort_desc_spec(s).len() == s.len(),
    decreases s.len(),
{
    broadcast use vstd::seq_lib::group_to_multiset_ensures;

    if s.len() > 0 {
        lemma_sort_desc_spec_ensures(s.drop_last());
        lemma_insert_ordered_ensures(sort_desc_spec(s.drop_last()), s.last());
        assert(s =~= s.drop_last().push(s.last()));
        assert(s.drop_last().push(s.last()).to_multiset() == s.drop_last().to_multiset().insert(
            s.last(),
        ));
    }
}

/// A sorted sequence contains the same elements as its input.
pub proof fn lemma_sort_desc_contains(s: Seq<WinnerElement>, x: WinnerElement)
    ensures
        sort_desc_spec(s).contains(x) <==> s.contains(x),
{
    broadcast use vstd::seq_lib::group_to_multiset_ensures;

    lemma_sort_desc_spec_ensures(s);
    if s.contains(x) {
        assert(s.to_multiset().contains(x));
        assert(sort_desc_spec(s).to_multiset().contains(x));
    }
    if sort_desc_spec(s).contains(x) {
        assert(sort_desc_spec(s).to_multiset().contains(x));
        assert(s.to_multiset().contains(x));
    }
}

/// Exec comparison implementing `precedes`.
fn precedes_exec(a: &WinnerElement, b: &WinnerElement) -> (r: bool)
    ensures
        r == precedes(*a, *b),
{
    if a.weight > b.weight {
        true
    } else if a.weight == b.weight {
        if a.query_track < b.query_track {
            true
        } else if a.query_track == b.query_track {
            a.winner_track <= b.winner_track
        } else {
            false
        }
    } else {
        false
    }
}

/// First index whose element `x` precedes; the length when there is
/// none.
fn find_insert_pos(out: &Vec<WinnerElement>, x: &WinnerElement) -> (idx: usize)
    ensures
        0 <= idx <= out@.len(),
        forall|j: int| 0 <= j < idx ==> !precedes(*x, #[trigger] out@[j]),
        idx < out@.len() ==> precedes(*x, out@[idx as int]),
{
    let n = out.len();
    for i in 0..n
        invariant
            n == out@.len(),
            forall|j: int| 0 <= j < i ==> !precedes(*x, #[trigger] out@[j]),
    {
        if precedes_exec(x, &out[i]) {
            return i;
        }
    }
    n
}

/// Sorts candidate pairs by descending weight with the deterministic
/// tie-break.
pub fn sort_desc(v: &Vec<WinnerElement>) -> (out: Vec<WinnerElement>)
    ensures
        out@ == sort_desc_spec(v@),
{
    let mut out: Vec<WinnerElement> = Vec::new();
    let n = v.len();
    proof {
        assert(v@.take(0) =~= Seq::<WinnerElement>::empty());
    }
    for i in 0..n
        invariant
            n == v@.len(),
            out@ == sort_desc_spec(v@.take(i as int)),
    {
        let x = v[i];
        let idx = find_insert_pos(&out, &x);
        proof {
            lemma_insert_ordered_at(out@, x, idx as int);
            assert(v@.take(i + 1).drop_last() =~= v@.take(i as int));
            assert(v@.take(i + 1).last() == v@[i as int]);
        }
        out.insert(idx, x);
    }
    proof {
        assert(v@.take(v@.len() as int) =~= v@);
    }
    out
}

} // verus!
