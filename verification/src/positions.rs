//! Removing a set of positions from a sequence.

use vstd::prelude::*;

verus! {

/// The positions `idx` are strictly increasing and lie within `0..len`.
pub open spec fn increasing_positions(idx: Seq<int>, len: int) -> bool {
    &&& forall|a: int, b: int| 0 <= a < b < idx.len() ==> #[trigger] idx[a] < #[trigger] idx[b]
    &&& forall|k: int| 0 <= k < idx.len() ==> 0 <= #[trigger] idx[k] < len
}

/// `s` without the positions `idx[k..]`, removed from the last one down, so
/// that each removal leaves the positions before it in place.
pub open spec fn remove_positions_from<A>(s: Seq<A>, idx: Seq<int>, k: int) -> Seq<A>
    decreases idx.len() - k,
{
    if k < 0 || k >= idx.len() {
        s
    } else {
        remove_positions_from(s, idx, k + 1).remove(idx[k])
    }
}

/// `s` without the positions `idx`.
pub open spec fn remove_positions<A>(s: Seq<A>, idx: Seq<int>) -> Seq<A> {
    remove_positions_from(s, idx, 0)
}

proof fn lemma_positions_spread(idx: Seq<int>, len: int, a: int, b: int)
    requires
        increasing_positions(idx, len),
        0 <= a <= b < idx.len(),
    ensures
        idx[a] + (b - a) <= idx[b],
    decreases b - a,
{
    if a < b {
        lemma_positions_spread(idx, len, a, b - 1);
    }
}

/// Removing the positions from `k` on leaves `s` shorter by their number and
/// keeps in place every element before position `idx[k]`.
pub proof fn lemma_remove_positions_from<A>(s: Seq<A>, idx: Seq<int>, k: int)
    requires
        increasing_positions(idx, s.len() as int),
        0 <= k <= idx.len(),
    ensures
        remove_positions_from(s, idx, k).len() == s.len() - (idx.len() - k),
        k < idx.len() ==> idx[k] <= s.len() - (idx.len() - k),
        forall|p: int|
            0 <= p < (if k < idx.len() {
                idx[k]
            } else {
                s.len() as int
            }) ==> #[trigger] remove_positions_from(s, idx, k)[p] == s[p],
    decreases idx.len() - k,
{
    if k < idx.len() {
        lemma_remove_positions_from(s, idx, k + 1);
        lemma_positions_spread(idx, s.len() as int, k, idx.len() - 1);
        let rest = remove_positions_from(s, idx, k + 1);
        assert forall|p: int| 0 <= p < idx[k] implies #[trigger] remove_positions_from(
            s,
            idx,
            k,
        )[p] == s[p] by {
            assert(rest.remove(idx[k])[p] == rest[p]);
            if k + 1 < idx.len() {
                assert(idx[k] < idx[k + 1]);
            }
        }
    }
}

/// Removing positions commutes with mapping the elements.
pub proof fn lemma_remove_positions_map<A, B>(s: Seq<A>, idx: Seq<int>, k: int, f: spec_fn(A) -> B)
    requires
        increasing_positions(idx, s.len() as int),
        0 <= k <= idx.len(),
    ensures
        remove_positions_from(s, idx, k).map_values(f) == remove_positions_from(
            s.map_values(f),
            idx,
            k,
        ),
    decreases idx.len() - k,
{
    if k < idx.len() {
        lemma_remove_positions_map(s, idx, k + 1, f);
        lemma_remove_positions_from(s, idx, k + 1);
        let rest = remove_positions_from(s, idx, k + 1);
        assert(rest.remove(idx[k]).map_values(f) =~= rest.map_values(f).remove(idx[k]));
    }
}

/// Inserting an element into a sequence adds it to its multiset.
pub proof fn lemma_insert_to_multiset<A>(s: Seq<A>, p: int, x: A)
    requires
        0 <= p <= s.len(),
    ensures
        s.insert(p, x).to_multiset() == s.to_multiset().insert(x),
{
    let t = s.insert(p, x);
    t.to_multiset_ensures();
    assert(t.remove(p) == s);
    assert(t[p] == x);
    assert(t.contains(x));
    assert(t.to_multiset() =~= s.to_multiset().insert(x));
}

/// Filtering a sequence with one more element at its end.
pub proof fn lemma_filter_push<A>(s: Seq<A>, x: A, pred: spec_fn(A) -> bool)
    ensures
        s.push(x).filter(pred) == if pred(x) {
            s.filter(pred).push(x)
        } else {
            s.filter(pred)
        },
{
    reveal(Seq::filter);
    assert(s.push(x).drop_last() == s);
}

/// Filtering a sequence in which nothing passes gives nothing.
pub proof fn lemma_filter_none<A>(s: Seq<A>, pred: spec_fn(A) -> bool)
    requires
        forall|k: int| 0 <= k < s.len() ==> !pred(#[trigger] s[k]),
    ensures
        s.filter(pred) == Seq::<A>::empty(),
    decreases s.len(),
{
    reveal(Seq::filter);
    if s.len() > 0 {
        let t = s.drop_last();
        assert forall|k: int| 0 <= k < t.len() implies !pred(#[trigger] t[k]) by {
            assert(t[k] == s[k]);
        }
        lemma_filter_none(t, pred);
        assert(!pred(s[s.len() - 1]));
    }
}

/// Inserting `x` before every element that passes along with it filters as
/// appending `x` at the end.
pub proof fn lemma_filter_insert<A>(s: Seq<A>, p: int, x: A, pred: spec_fn(A) -> bool)
    requires
        0 <= p <= s.len(),
        pred(x) ==> forall|k: int| p <= k < s.len() ==> !pred(#[trigger] s[k]),
    ensures
        s.insert(p, x).filter(pred) == s.push(x).filter(pred),
{
    let (a, b) = (s.take(p), s.skip(p));
    assert(s == a + b);
    assert(s.insert(p, x) == a.push(x) + b);
    Seq::filter_distributes_over_add(a, b, pred);
    Seq::filter_distributes_over_add(a.push(x), b, pred);
    lemma_filter_push(a, x, pred);
    lemma_filter_push(s, x, pred);
    if pred(x) {
        assert forall|k: int| 0 <= k < b.len() implies !pred(#[trigger] b[k]) by {
            assert(b[k] == s[p + k]);
        }
        lemma_filter_none(b, pred);
        assert(b.filter(pred) + Seq::<A>::empty() == b.filter(pred));
        assert(s.filter(pred) == a.filter(pred));
        assert(a.filter(pred).push(x) + Seq::<A>::empty() == a.filter(pred).push(x));
    }
}

/// The elements at positions `idx[k..]`, in the order of the positions.
pub open spec fn picked_from<A>(s: Seq<A>, idx: Seq<int>, k: int) -> Seq<A> {
    Seq::new((idx.len() - k) as nat, |j: int| s[idx[k + j]])
}

/// Removing positions from a sequence leaves the multiset of the sequence
/// less the elements at those positions.
pub proof fn lemma_remove_positions_multiset<A>(s: Seq<A>, idx: Seq<int>, k: int)
    requires
        increasing_positions(idx, s.len() as int),
        0 <= k <= idx.len(),
    ensures
        remove_positions_from(s, idx, k).to_multiset().add(picked_from(s, idx, k).to_multiset())
            == s.to_multiset(),
    decreases idx.len() - k,
{
    broadcast use vstd::seq_lib::group_to_multiset_ensures;

    if k == idx.len() {
        assert(picked_from(s, idx, k) =~= Seq::<A>::empty());
        assert(s.to_multiset().add(Seq::<A>::empty().to_multiset()) =~= s.to_multiset());
    } else {
        lemma_remove_positions_multiset(s, idx, k + 1);
        lemma_remove_positions_from(s, idx, k + 1);
        let rest = remove_positions_from(s, idx, k + 1);
        let x = s[idx[k]];
        if k + 1 < idx.len() {
            assert(idx[k] < idx[k + 1]);
        }
        assert(rest[idx[k]] == x);
        assert(picked_from(s, idx, k) =~= seq![x] + picked_from(s, idx, k + 1));
        assert(picked_from(s, idx, k).to_multiset() =~= picked_from(s, idx, k + 1).to_multiset().insert(x)) by {
            vstd::seq_lib::lemma_multiset_commutative(seq![x], picked_from(s, idx, k + 1));
            assert(seq![x].to_multiset() =~= vstd::multiset::Multiset::<A>::empty().insert(x)) by {
                assert(seq![x] == Seq::<A>::empty().push(x));
            }
        }
        assert(rest.contains(x));
        assert(rest.to_multiset().count(x) > 0);
        assert(rest.remove(idx[k]).to_multiset() == rest.to_multiset().remove(x));
        assert(rest.to_multiset().remove(x).add(picked_from(s, idx, k + 1).to_multiset().insert(x))
            =~= rest.to_multiset().add(picked_from(s, idx, k + 1).to_multiset()));
    }
}

/// Sequences with one multiset keep one multiset through a map.
pub proof fn lemma_map_multiset<A, B>(a: Seq<A>, b: Seq<A>, f: spec_fn(A) -> B)
    requires
        a.to_multiset() == b.to_multiset(),
    ensures
        a.map_values(f).to_multiset() == b.map_values(f).to_multiset(),
    decreases a.len(),
{
    broadcast use vstd::seq_lib::group_to_multiset_ensures;

    if a.len() == 0 {
        assert(b.to_multiset().len() == 0);
        assert(b.len() == 0);
        assert(a.map_values(f) =~= b.map_values(f));
    } else {
        let x = a.last();
        let rest = a.drop_last();
        assert(rest.push(x) == a);
        assert(a.to_multiset().count(x) > 0);
        assert(b.contains(x));
        let k = choose|k: int| 0 <= k < b.len() && b[k] == x;
        let br = b.remove(k);
        assert(br.to_multiset() == b.to_multiset().remove(x));
        assert(rest.to_multiset() == a.to_multiset().remove(x));
        lemma_map_multiset(rest, br, f);
        assert(a.map_values(f) == rest.map_values(f).push(f(x)));
        assert(b.map_values(f).remove(k) == br.map_values(f));
        assert(b.map_values(f)[k] == f(x));
        assert(b.map_values(f).remove(k).to_multiset() == b.map_values(f).to_multiset().remove(f(x)));
        assert(b.map_values(f).to_multiset() =~= br.map_values(f).to_multiset().insert(f(x)));
    }
}

} // verus!
