//! Stable sorting as a function on sequences, for any relation that orders
//! the items.
use vstd::prelude::*;
use vstd::relations::{sorted_by, strongly_connected, transitive};
use vstd::multiset::group_multiset_axioms;
use vstd::seq_lib::group_to_multiset_ensures;
use vstd::set::group_set_axioms;

verus! {

/// Where `x` goes in the sorted sequence `s`: behind every item that is not
/// greater than `x`.
pub open spec fn slot<A>(s: Seq<A>, x: A, leq: spec_fn(A, A) -> bool) -> int
    decreases s.len(),
{
    if s.len() == 0 || leq(s.last(), x) {
        s.len() as int
    } else {
        slot(s.drop_last(), x, leq)
    }
}

/// The items of `s` in ascending order; items that the relation does not
/// tell apart keep the order in which they stand in `s`.
pub open spec fn stable_sorted<A>(s: Seq<A>, leq: spec_fn(A, A) -> bool) -> Seq<A>
    decreases s.len(),
{
    if s.len() == 0 {
        s
    } else {
        let front = stable_sorted(s.drop_last(), leq);
        front.insert(slot(front, s.last(), leq), s.last())
    }
}

/// The slot of `x` parts a sorted sequence in the items up to `x` and the
/// items above it.
pub proof fn lemma_slot_parts<A>(s: Seq<A>, x: A, leq: spec_fn(A, A) -> bool)
    requires
        transitive(leq),
        sorted_by(s, leq),
    ensures
        0 <= slot(s, x, leq) <= s.len(),
        forall|i: int| 0 <= i < slot(s, x, leq) ==> leq(#[trigger] s[i], x),
        forall|i: int| slot(s, x, leq) <= i < s.len() ==> !leq(#[trigger] s[i], x),
    decreases s.len(),
{
    if s.len() == 0 {
    } else if leq(s.last(), x) {
        assert forall|i: int| 0 <= i < s.len() implies leq(#[trigger] s[i], x) by {
            if i < s.len() - 1 {
                assert(leq(s[i], s[s.len() - 1]));
            }
        }
    } else {
        let front = s.drop_last();
        assert forall|i: int, j: int| 0 <= i < j < front.len() implies #[trigger] leq(
            front[i],
            front[j],
        ) by {
            assert(leq(s[i], s[j]));
        }
        lemma_slot_parts(front, x, leq);
        assert forall|i: int| slot(s, x, leq) <= i < s.len() implies !leq(#[trigger] s[i], x) by {
            if i < front.len() {
                assert(s[i] == front[i]);
            }
        }
        assert forall|i: int| 0 <= i < slot(s, x, leq) implies leq(#[trigger] s[i], x) by {
            assert(s[i] == front[i]);
        }
    }
}

/// The slot lies within the sequence, whatever the relation.
pub proof fn lemma_slot_bounds<A>(s: Seq<A>, x: A, leq: spec_fn(A, A) -> bool)
    ensures
        0 <= slot(s, x, leq) <= s.len(),
    decreases s.len(),
{
    if s.len() != 0 && !leq(s.last(), x) {
        lemma_slot_bounds(s.drop_last(), x, leq);
    }
}

/// Putting an item into its slot keeps a sorted sequence sorted.
pub proof fn lemma_insert_keeps_sorted<A>(s: Seq<A>, x: A, leq: spec_fn(A, A) -> bool)
    requires
        transitive(leq),
        strongly_connected(leq),
        sorted_by(s, leq),
    ensures
        sorted_by(s.insert(slot(s, x, leq), x), leq),
{
    let k = slot(s, x, leq);
    let t = s.insert(k, x);
    lemma_slot_parts(s, x, leq);
    assert forall|i: int, j: int| 0 <= i < j < t.len() implies #[trigger] leq(t[i], t[j]) by {
        if j < k {
            assert(t[i] == s[i] && t[j] == s[j]);
        } else if j == k {
            assert(t[i] == s[i] && t[j] == x);
        } else if i < k {
            assert(t[i] == s[i] && t[j] == s[j - 1]);
            if i == j - 1 {
            } else {
                assert(leq(s[i], s[j - 1]));
            }
        } else if i == k {
            assert(t[i] == x && t[j] == s[j - 1]);
            assert(!leq(s[j - 1], x));
            assert(leq(s[j - 1], x) || leq(x, s[j - 1]));
        } else {
            assert(t[i] == s[i - 1] && t[j] == s[j - 1]);
        }
    }
}

/// A stably sorted sequence is sorted, has the length of the sequence it
/// was made from, and holds the same items as often.
pub proof fn lemma_stable_sorted<A>(s: Seq<A>, leq: spec_fn(A, A) -> bool)
    requires
        transitive(leq),
        strongly_connected(leq),
    ensures
        sorted_by(stable_sorted(s, leq), leq),
        stable_sorted(s, leq).len() == s.len(),
        stable_sorted(s, leq).to_multiset() == s.to_multiset(),
    decreases s.len(),
{
    broadcast use group_to_multiset_ensures;

    if s.len() == 0 {
    } else {
        let front = stable_sorted(s.drop_last(), leq);
        lemma_stable_sorted(s.drop_last(), leq);
        lemma_insert_keeps_sorted(front, s.last(), leq);
        lemma_slot_bounds(front, s.last(), leq);
        assert(s.drop_last().push(s.last()) =~= s);
        assert(s.to_multiset() =~= s.drop_last().to_multiset().insert(s.last()));
        assert(stable_sorted(s, leq).to_multiset() =~= front.to_multiset().insert(s.last()));
    }
}

/// Sorting a sequence with one more item at its end puts that item into its
/// slot among the others.
pub proof fn lemma_stable_sorted_push<A>(s: Seq<A>, x: A, leq: spec_fn(A, A) -> bool)
    ensures
        stable_sorted(s.push(x), leq) == stable_sorted(s, leq).insert(
            slot(stable_sorted(s, leq), x, leq),
            x,
        ),
{
    assert(s.push(x).drop_last() =~= s);
}

/// Two duplicate-free sequences that hold the same items hold each as often.
pub proof fn lemma_same_items_same_multiset<A>(a: Seq<A>, b: Seq<A>)
    requires
        a.no_duplicates(),
        b.no_duplicates(),
        a.to_set() == b.to_set(),
    ensures
        a.to_multiset() == b.to_multiset(),
{
    broadcast use group_to_multiset_ensures;
    broadcast use group_multiset_axioms;

    broadcast use group_set_axioms;

    a.lemma_multiset_has_no_duplicates();
    b.lemma_multiset_has_no_duplicates();
    a.to_multiset_ensures();
    b.to_multiset_ensures();
    assert forall|x: A| a.to_multiset().count(x) == b.to_multiset().count(x) by {
        assert(a.to_set().contains(x) <==> a.contains(x));
        assert(b.to_set().contains(x) <==> b.contains(x));
        if a.contains(x) {
            assert(a.to_multiset().contains(x));
            assert(b.to_multiset().contains(x));
        }
    }
    assert(a.to_multiset() =~= b.to_multiset());
}

/// Mapping two sequences that hold the same items as often gives two
/// sequences that hold the same items as often.
pub proof fn lemma_map_keeps_multiset<A, B>(a: Seq<A>, b: Seq<A>, f: spec_fn(A) -> B)
    requires
        a.to_multiset() == b.to_multiset(),
    ensures
        a.map_values(f).to_multiset() == b.map_values(f).to_multiset(),
    decreases a.len(),
{
    broadcast use group_to_multiset_ensures;
    broadcast use group_multiset_axioms;

    a.to_multiset_ensures();
    b.to_multiset_ensures();
    assert(a.len() == b.len());
    if a.len() == 0 {
        assert(a.map_values(f) =~= b.map_values(f));
    } else {
        let x = a.last();
        assert(a[a.len() - 1] == x);
        assert(a.contains(x));
        assert(a.to_multiset().count(x) > 0);
        assert(b.contains(x));
        let i = choose|i: int| 0 <= i < b.len() && b[i] == x;
        let a1 = a.drop_last();
        let b1 = b.remove(i);
        assert(a1.push(x) =~= a);
        assert(a.to_multiset() =~= a1.to_multiset().insert(x));
        assert(a1.to_multiset() =~= b1.to_multiset());
        lemma_map_keeps_multiset(a1, b1, f);
        let fa = a.map_values(f);
        let fb = b.map_values(f);
        assert(fa =~= a1.map_values(f).push(f(x)));
        assert(fb.remove(i) =~= b1.map_values(f));
        assert(fb[i] == f(x));
        assert(fb.contains(f(x)));
        assert(fb.to_multiset() =~= fb.remove(i).to_multiset().insert(f(x)));
    }
}

/// A finite set, listed as a sequence, comes out without duplicates.
pub proof fn lemma_to_seq_no_duplicates<A>(s: Set<A>)
    requires
        s.finite(),
    ensures
        s.to_seq().no_duplicates(),
        s.to_seq().to_set() == s,
        s.to_seq().len() == s.len(),
{
    s.lemma_to_seq_to_set_id();
    lemma_to_seq_len(s);
    s.to_seq().lemma_no_dup_set_cardinality();
}

proof fn lemma_to_seq_len<A>(s: Set<A>)
    requires
        s.finite(),
    ensures
        s.to_seq().len() == s.len(),
    decreases s.len(),
{
    broadcast use group_set_axioms;

    if s.len() != 0 {
        lemma_to_seq_len(s.remove(s.choose()));
    }
}

} // verus!
