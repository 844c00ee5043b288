//! Series of points: a point is a timestamp with a value, a series holds its
//! points in ascending order of time.
use vstd::prelude::*;
use vstd::relations::{strongly_connected, transitive};
use crate::order::{
    lemma_slot_parts, lemma_stable_sorted, lemma_stable_sorted_push, slot,
    stable_sorted,
};

verus! {

/// The order of points by time; the values take no part in it.
pub open spec fn by_time<V>() -> spec_fn((i64, V), (i64, V)) -> bool {
    |a: (i64, V), b: (i64, V)| a.0 <= b.0
}

/// The points in ascending order of time; points of one time keep the order
/// in which they stand in `points`.
pub open spec fn sorted_by_time<V>(points: Seq<(i64, V)>) -> Seq<(i64, V)> {
    stable_sorted(points, by_time())
}

/// The timestamps of a sequence of points.
pub open spec fn times_of<V>(points: Seq<(i64, V)>) -> Seq<i64> {
    points.map_values(|p: (i64, V)| p.0)
}

/// The values of a sequence of points.
pub open spec fn values_of<V>(points: Seq<(i64, V)>) -> Seq<V> {
    points.map_values(|p: (i64, V)| p.1)
}

/// No timestamp is followed by a smaller one.
pub open spec fn ascending(times: Seq<i64>) -> bool {
    forall|i: int, j: int| 0 <= i <= j < times.len() ==> times[i] <= times[j]
}

/// Every timestamp is followed by greater ones only.
pub open spec fn strictly_ascending(times: Seq<i64>) -> bool {
    forall|i: int, j: int| 0 <= i < j < times.len() ==> times[i] < times[j]
}

/// Whether a point has the time `t`, as a predicate.
pub open spec fn has_time<V>(t: i64) -> spec_fn((i64, V)) -> bool {
    |p: (i64, V)| p.0 == t
}

/// The points of time `t`, in the order in which they stand in `points`.
pub open spec fn at_time<V>(points: Seq<(i64, V)>, t: i64) -> Seq<(i64, V)> {
    points.filter(has_time(t))
}

/// The order by time is transitive and compares any two points.
pub proof fn lemma_by_time_orders<V>()
    ensures
        transitive(by_time::<V>()),
        strongly_connected(by_time::<V>()),
{
    let r = by_time::<V>();
    assert forall|x: (i64, V), y: (i64, V), z: (i64, V)| #[trigger] r(x, y) && #[trigger] r(
        y,
        z,
    ) implies r(x, z) by {}
    assert forall|x: (i64, V), y: (i64, V)| #[trigger] r(x, y) || #[trigger] r(y, x) by {}
}

/// What sorting by time keeps and what it gives: the same points as often,
/// in ascending order of time.
pub proof fn lemma_sorted_by_time<V>(points: Seq<(i64, V)>)
    ensures
        sorted_by_time(points).len() == points.len(),
        sorted_by_time(points).to_multiset() == points.to_multiset(),
        ascending(times_of(sorted_by_time(points))),
{
    lemma_by_time_orders::<V>();
    lemma_stable_sorted(points, by_time());
    let sorted = sorted_by_time(points);
    let times = times_of(sorted);
    assert forall|i: int, j: int| 0 <= i <= j < times.len() implies times[i] <= times[j] by {
        if i < j {
            assert(by_time::<V>()(sorted[i], sorted[j]));
        }
    }
}

/// How `filter` treats the last item of a sequence.
pub proof fn lemma_filter_last<A>(s: Seq<A>, pred: spec_fn(A) -> bool)
    requires
        s.len() > 0,
    ensures
        s.filter(pred) == if pred(s.last()) {
            s.drop_last().filter(pred).push(s.last())
        } else {
            s.drop_last().filter(pred)
        },
{
    broadcast use Seq::lemma_filter_push;

    assert(s.drop_last().push(s.last()) =~= s);
}

/// Where no item satisfies the predicate, `filter` leaves nothing.
pub proof fn lemma_filter_none<A>(s: Seq<A>, pred: spec_fn(A) -> bool)
    requires
        forall|i: int| 0 <= i < s.len() ==> !pred(#[trigger] s[i]),
    ensures
        s.filter(pred) == Seq::<A>::empty(),
    decreases s.len(),
{
    if s.len() == 0 {
        assert(s.filter(pred).len() <= s.len()) by {
            s.lemma_filter_len(pred);
        }
        assert(s.filter(pred) =~= Seq::<A>::empty());
    } else {
        lemma_filter_last(s, pred);
        assert forall|i: int| 0 <= i < s.drop_last().len() implies !pred(
            #[trigger] s.drop_last()[i],
        ) by {
            assert(s.drop_last()[i] == s[i]);
        }
        lemma_filter_none(s.drop_last(), pred);
    }
}

/// Sorting by time is stable: the points of any one time come out in the
/// order in which they went in.
pub proof fn lemma_sorted_by_time_stable<V>(points: Seq<(i64, V)>, t: i64)
    ensures
        at_time(sorted_by_time(points), t) == at_time(points, t),
    decreases points.len(),
{
    let pred = has_time::<V>(t);
    if points.len() == 0 {
    } else {
        let front = points.drop_last();
        let last = points.last();
        lemma_filter_last(points, pred);
        let sorted_front = sorted_by_time(front);
        let k = slot(sorted_front, last, by_time());
        lemma_sorted_by_time_stable(front, t);
        lemma_by_time_orders::<V>();
        lemma_stable_sorted(front, by_time());
        lemma_slot_parts(sorted_front, last, by_time());
        let below = sorted_front.subrange(0, k);
        let above = sorted_front.subrange(k, sorted_front.len() as int);
        assert(sorted_front =~= below + above);
        assert(sorted_by_time(points) =~= below.push(last) + above);
        Seq::filter_distributes_over_add(below, above, pred);
        Seq::filter_distributes_over_add(below.push(last), above, pred);
        assert(below.push(last).drop_last() =~= below);
        lemma_filter_last(below.push(last), pred);
        if last.0 == t {
            assert forall|i: int| 0 <= i < above.len() implies !pred(#[trigger] above[i]) by {
                assert(above[i] == sorted_front[k + i]);
                assert(!by_time::<V>()(sorted_front[k + i], last));
            }
            lemma_filter_none(above, pred);
            assert(below.push(last).filter(pred) =~= below.filter(pred).push(last));
            assert(at_time(sorted_by_time(points), t) =~= at_time(sorted_front, t).push(last));
        } else {
            assert(below.push(last).filter(pred) =~= below.filter(pred));
            assert(at_time(sorted_by_time(points), t) =~= at_time(sorted_front, t));
        }
    }
}

/// A point of `at_time` is a point of the sequence.
proof fn lemma_at_time_is_among<V>(points: Seq<(i64, V)>, t: i64)
    requires
        at_time(points, t).len() > 0,
    ensures
        exists|i: int| 0 <= i < points.len() && (#[trigger] points[i]).0 == t,
    decreases points.len(),
{
    if points.len() == 0 {
        lemma_filter_none(points, has_time::<V>(t));
    } else {
        lemma_filter_last(points, has_time::<V>(t));
        if points.last().0 == t {
            assert(points[points.len() - 1].0 == t);
        } else {
            lemma_at_time_is_among(points.drop_last(), t);
            let i = choose|i: int|
                0 <= i < points.drop_last().len() && (#[trigger] points.drop_last()[i]).0 == t;
            assert(points[i].0 == t);
        }
    }
}

/// Two sequences of points that ascend in time and agree on the points of
/// every time are one sequence.
pub proof fn lemma_ascending_stable_unique<V>(a: Seq<(i64, V)>, b: Seq<(i64, V)>)
    requires
        ascending(times_of(a)),
        ascending(times_of(b)),
        forall|t: i64| at_time(a, t) == at_time(b, t),
    ensures
        a == b,
    decreases a.len(),
{
    if a.len() == 0 || b.len() == 0 {
        if a.len() > 0 {
            lemma_one_at_time(a, 0);
            lemma_filter_none(b, has_time::<V>(a[0].0));
        }
        if b.len() > 0 {
            lemma_one_at_time(b, 0);
            lemma_filter_none(a, has_time::<V>(b[0].0));
        }
        assert(a =~= b);
    } else {
        let p = a.last();
        let q = b.last();
        assert(times_of(a)[a.len() - 1] == p.0);
        assert(times_of(b)[b.len() - 1] == q.0);
        if p.0 < q.0 {
            lemma_one_at_time(b, b.len() - 1);
            lemma_at_time_is_among(a, q.0);
            let i = choose|i: int| 0 <= i < a.len() && (#[trigger] a[i]).0 == q.0;
            assert(times_of(a)[i] == q.0);
            assert(false);
        }
        if q.0 < p.0 {
            lemma_one_at_time(a, a.len() - 1);
            lemma_at_time_is_among(b, p.0);
            let i = choose|i: int| 0 <= i < b.len() && (#[trigger] b[i]).0 == p.0;
            assert(times_of(b)[i] == p.0);
            assert(false);
        }
        let t = p.0;
        let front_a = a.drop_last();
        let front_b = b.drop_last();
        lemma_filter_last(a, has_time::<V>(t));
        lemma_filter_last(b, has_time::<V>(t));
        assert(at_time(a, t) == at_time(front_a, t).push(p));
        assert(at_time(b, t) == at_time(front_b, t).push(q));
        assert(at_time(a, t).last() == p);
        assert(at_time(b, t).last() == q);
        assert(p == q);
        assert forall|u: i64| at_time(front_a, u) == at_time(front_b, u) by {
            lemma_filter_last(a, has_time::<V>(u));
            lemma_filter_last(b, has_time::<V>(u));
            assert(at_time(a, u) == at_time(b, u));
            if u == t {
                assert(at_time(front_a, t) =~= at_time(a, t).drop_last());
                assert(at_time(front_b, t) =~= at_time(b, t).drop_last());
            }
        }
        assert(times_of(front_a) =~= times_of(a).drop_last());
        assert(times_of(front_b) =~= times_of(b).drop_last());
        lemma_ascending_stable_unique(front_a, front_b);
        assert(a =~= front_a.push(p));
        assert(b =~= front_b.push(q));
    }
}

/// Sorting by time is the one way of putting points in ascending order of
/// time that keeps the points of every time in their order.
pub proof fn lemma_sorted_by_time_unique<V>(points: Seq<(i64, V)>, sorted: Seq<(i64, V)>)
    requires
        ascending(times_of(sorted)),
        forall|t: i64| at_time(sorted, t) == at_time(points, t),
    ensures
        sorted == sorted_by_time(points),
{
    lemma_sorted_by_time(points);
    assert forall|t: i64| at_time(sorted, t) == at_time(sorted_by_time(points), t) by {
        lemma_sorted_by_time_stable(points, t);
    }
    lemma_ascending_stable_unique(sorted, sorted_by_time(points));
}

/// Where no two points have the same time, sorting by time gives strictly
/// ascending timestamps.
pub proof fn lemma_sorted_distinct_times<V>(points: Seq<(i64, V)>)
    requires
        times_of(points).no_duplicates(),
    ensures
        strictly_ascending(times_of(sorted_by_time(points))),
{
    let sorted = sorted_by_time(points);
    let times = times_of(sorted);
    lemma_sorted_by_time(points);
    assert forall|i: int, j: int| 0 <= i < j < times.len() implies times[i] < times[j] by {
        if times[i] == times[j] {
            let t = times[i];
            lemma_sorted_by_time_stable(points, t);
            lemma_two_at_time(sorted, i, j);
            lemma_at_most_one_at_time(points, t);
        }
    }
}

/// Two points of one time make `at_time` hold two points at least.
proof fn lemma_two_at_time<V>(points: Seq<(i64, V)>, i: int, j: int)
    requires
        0 <= i < j < points.len(),
        points[i].0 == points[j].0,
    ensures
        at_time(points, points[i].0).len() >= 2,
    decreases points.len(),
{
    let t = points[i].0;
    let pred = has_time::<V>(t);
    let front = points.drop_last();
    lemma_filter_last(points, pred);
    if j == points.len() - 1 {
        lemma_one_at_time(front, i);
    } else {
        lemma_two_at_time(front, i, j);
    }
}

/// A point of time `t` makes `at_time` hold one point at least.
proof fn lemma_one_at_time<V>(points: Seq<(i64, V)>, i: int)
    requires
        0 <= i < points.len(),
    ensures
        at_time(points, points[i].0).len() >= 1,
    decreases points.len(),
{
    let front = points.drop_last();
    lemma_filter_last(points, has_time::<V>(points[i].0));
    if i < points.len() - 1 {
        lemma_one_at_time(front, i);
    }
}

/// Where no two points have the same time, `at_time` holds one point at
/// most.
proof fn lemma_at_most_one_at_time<V>(points: Seq<(i64, V)>, t: i64)
    requires
        times_of(points).no_duplicates(),
    ensures
        at_time(points, t).len() <= 1,
    decreases points.len(),
{
    let pred = has_time::<V>(t);
    if points.len() > 0 {
        let front = points.drop_last();
        lemma_filter_last(points, pred);
        assert(times_of(front) =~= times_of(points).drop_last());
        if points.last().0 == t {
            assert forall|i: int| 0 <= i < front.len() implies !pred(#[trigger] front[i]) by {
                assert(times_of(points)[i] == points[i].0);
                assert(times_of(points)[points.len() - 1] == t);
            }
            lemma_filter_none(front, pred);
        } else {
            lemma_at_most_one_at_time(front, t);
        }
    } else {
        lemma_filter_none(points, pred);
    }
}

/// Sorts points by time, stably. Each point is put in from the back, so
/// points that ascend already are sorted in one pass.
pub fn sort_by_time<V: Copy>(points: &Vec<(i64, V)>) -> (sorted: Vec<(i64, V)>)
    ensures
        sorted@ == sorted_by_time(points@),
{
    let mut sorted: Vec<(i64, V)> = Vec::new();
    let mut i: usize = 0;
    assert(points@.take(0) =~= Seq::<(i64, V)>::empty());
    while i < points.len()
        invariant
            0 <= i <= points.len(),
            sorted@ == sorted_by_time(points@.take(i as int)),
        decreases points.len() - i,
    {
        let point = points[i];
        let mut k: usize = sorted.len();
        let ghost before = sorted@;
        assert(before.take(k as int) =~= before);
        while k > 0 && sorted[k - 1].0 > point.0
            invariant
                0 <= k <= sorted.len(),
                sorted@ == before,
                slot(before, point, by_time()) == slot(before.take(k as int), point, by_time()),
            decreases k,
        {
            assert(before.take(k as int).last() == before[k - 1]);
            assert(before.take(k as int).drop_last() =~= before.take(k - 1));
            k -= 1;
        }
        proof {
            if k > 0 {
                assert(before.take(k as int).last() == before[k - 1]);
            }
            lemma_stable_sorted_push(points@.take(i as int), point, by_time());
            assert(points@.take(i as int).push(point) =~= points@.take(i + 1));
        }
        sorted.insert(k, point);
        i += 1;
    }
    assert(points@.take(points.len() as int) =~= points@);
    sorted
}

/// Splits points into their timestamps and their values.
pub fn unzip<V: Copy>(points: &Vec<(i64, V)>) -> (r: (Vec<i64>, Vec<V>))
    ensures
        r.0@ == times_of(points@),
        r.1@ == values_of(points@),
{
    let mut times: Vec<i64> = Vec::new();
    let mut values: Vec<V> = Vec::new();
    let mut i: usize = 0;
    while i < points.len()
        invariant
            0 <= i <= points.len(),
            times@ == times_of(points@).take(i as int),
            values@ == values_of(points@).take(i as int),
        decreases points.len() - i,
    {
        let point = points[i];
        times.push(point.0);
        values.push(point.1);
        assert(times@ =~= times_of(points@).take(i + 1));
        assert(values@ =~= values_of(points@).take(i + 1));
        i += 1;
    }
    assert(times@ =~= times_of(points@));
    assert(values@ =~= values_of(points@));
    (times, values)
}

} // verus!
