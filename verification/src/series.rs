//! A single series: time-partitioned points with range scans and retention.
use vstd::prelude::*;
use vstd::multiset::Multiset;
use vstd::seq_lib::lemma_flatten_concat;

use crate::partition::Partition;
use crate::point::{
    DataPoint, Timestamp, aligned_start, at_or_after, in_range, insert_sorted, lemma_aligned_start_bounds,
    lemma_aligned_start_monotonic, lemma_filter_keeps_all, lemma_filter_keeps_none, lemma_insert_sorted,
    lemma_filter_split, sorted_by_time,
};
use crate::retention::{is_expired, is_expired_spec};

verus! {

/// Partition starts strictly ascending (so each start occurs once).
pub open spec fn keys_ascending<V>(ps: Seq<(u64, Seq<DataPoint<V>>)>) -> bool {
    forall|i: int, j: int| 0 <= i < j < ps.len() ==> ps[i].0 < ps[j].0
}

/// Whether some partition starts at `s`.
pub open spec fn has_key<V>(ps: Seq<(u64, Seq<DataPoint<V>>)>, s: u64) -> bool {
    exists|i: int| 0 <= i < ps.len() && ps[i].0 == s
}

/// The partitions as a map from partition start to the partition's points.
pub open spec fn parts_map<V>(ps: Seq<(u64, Seq<DataPoint<V>>)>) -> Map<u64, Seq<DataPoint<V>>> {
    Map::new(
        |s: u64| has_key(ps, s),
        |s: u64| ps[choose|i: int| 0 <= i < ps.len() && ps[i].0 == s].1,
    )
}

/// Every point of the partitions, partition after partition.
pub open spec fn parts_points<V>(ps: Seq<(u64, Seq<DataPoint<V>>)>) -> Seq<DataPoint<V>> {
    ps.map_values(|pr: (u64, Seq<DataPoint<V>>)| pr.1).flatten()
}

/// The shape a series keeps: partitions in ascending start order, none empty,
/// each sorted by time and holding exactly points whose width-`size` bucket
/// starts at the partition's start.
pub open spec fn parts_wf<V>(ps: Seq<(u64, Seq<DataPoint<V>>)>, size: u64) -> bool {
    &&& keys_ascending(ps)
    &&& forall|i: int|
        0 <= i < ps.len() ==> {
            &&& (#[trigger] ps[i]).1.len() > 0
            &&& sorted_by_time(ps[i].1)
            &&& forall|j: int|
                0 <= j < ps[i].1.len() ==> aligned_start((#[trigger] ps[i].1[j]).timestamp as int, size as int)
                    == ps[i].0
        }
}

/// A series after retention: the partitions that have not expired.
pub open spec fn retain_series<V>(s: Map<u64, Seq<DataPoint<V>>>, size: u64, cutoff: u64) -> Map<
    u64,
    Seq<DataPoint<V>>,
> {
    s.restrict(s.dom().filter(|t: u64| !is_expired_spec(t, size, cutoff)))
}

/// The series map after ingesting `p` into a series of width-`size`
/// partitions: the point joins, in stable time order, the partition of its
/// aligned bucket, which is created if absent.
pub open spec fn series_insert<V>(m: Map<u64, Seq<DataPoint<V>>>, size: u64, p: DataPoint<V>) -> Map<
    u64,
    Seq<DataPoint<V>>,
> {
    let s = bucket_of(p.timestamp, size);
    let old_points = if m.dom().contains(s) {
        m[s]
    } else {
        Seq::<DataPoint<V>>::empty()
    };
    m.insert(s, insert_sorted(old_points, p))
}

proof fn lemma_parts_map_at<V>(ps: Seq<(u64, Seq<DataPoint<V>>)>, i: int)
    requires
        keys_ascending(ps),
        0 <= i < ps.len(),
    ensures
        parts_map(ps).dom().contains(ps[i].0),
        parts_map(ps)[ps[i].0] == ps[i].1,
{
    let s = ps[i].0;
    assert(has_key(ps, s));
    let j = choose|j: int| 0 <= j < ps.len() && ps[j].0 == s;
    if j < i {
        assert(ps[j].0 < ps[i].0);
    } else if j > i {
        assert(ps[i].0 < ps[j].0);
    }
}

/// A map agreeing with an ascending partition list on every partition, and
/// holding no other key, is that list's map.
proof fn lemma_parts_map_ext<V>(ps: Seq<(u64, Seq<DataPoint<V>>)>, m: Map<u64, Seq<DataPoint<V>>>)
    requires
        keys_ascending(ps),
        forall|i: int| 0 <= i < ps.len() ==> m.dom().contains((#[trigger] ps[i]).0) && m[ps[i].0] == ps[i].1,
        forall|s: u64| m.dom().contains(s) ==> has_key(ps, s),
    ensures
        parts_map(ps) == m,
{
    assert forall|s: u64| #[trigger] parts_map(ps).dom().contains(s) <==> m.dom().contains(s) by {
        if m.dom().contains(s) {
            assert(has_key(ps, s));
        }
        if parts_map(ps).dom().contains(s) {
            let i = choose|i: int| 0 <= i < ps.len() && ps[i].0 == s;
            assert(m.dom().contains(ps[i].0));
        }
    }
    assert forall|s: u64| #[trigger] m.dom().contains(s) implies parts_map(ps)[s] == m[s] by {
        assert(has_key(ps, s));
        let i = choose|i: int| 0 <= i < ps.len() && ps[i].0 == s;
        lemma_parts_map_at(ps, i);
    }
    assert(parts_map(ps) =~= m);
}

/// Dropping the last (largest-keyed) partition drops its key from the map.
proof fn lemma_parts_map_drop_last<V>(ps: Seq<(u64, Seq<DataPoint<V>>)>)
    requires
        keys_ascending(ps),
        ps.len() > 0,
    ensures
        keys_ascending(ps.drop_last()),
        parts_map(ps.drop_last()) == parts_map(ps).remove(ps.last().0),
{
    let t = ps.drop_last();
    let m = parts_map(ps).remove(ps.last().0);
    assert forall|i: int| 0 <= i < t.len() implies m.dom().contains((#[trigger] t[i]).0) && m[t[i].0] == t[i].1 by {
        lemma_parts_map_at(ps, i);
        assert(ps[i].0 < ps[ps.len() - 1].0);
    }
    assert forall|s: u64| m.dom().contains(s) implies has_key(t, s) by {
        assert(has_key(ps, s));
        let j = choose|j: int| 0 <= j < ps.len() && ps[j].0 == s;
        assert(t[j] == ps[j]);
    }
    lemma_parts_map_ext(t, m);
}

/// An ascending partition list is determined by its map.
proof fn lemma_parts_unique<V>(a: Seq<(u64, Seq<DataPoint<V>>)>, b: Seq<(u64, Seq<DataPoint<V>>)>)
    requires
        keys_ascending(a),
        keys_ascending(b),
        parts_map(a) == parts_map(b),
    ensures
        a == b,
    decreases a.len(),
{
    if a.len() == 0 {
        if b.len() > 0 {
            lemma_parts_map_at(b, 0);
            assert(has_key(a, b[0].0));
        }
        assert(a =~= b);
    } else if b.len() == 0 {
        lemma_parts_map_at(a, 0);
        assert(has_key(b, a[0].0));
    } else {
        let x = a.last().0;
        let y = b.last().0;
        lemma_parts_map_at(a, a.len() - 1);
        lemma_parts_map_at(b, b.len() - 1);
        assert(has_key(b, x));
        let j = choose|j: int| 0 <= j < b.len() && b[j].0 == x;
        if j < b.len() - 1 {
            assert(b[j].0 < b[b.len() - 1].0);
        }
        assert(has_key(a, y));
        let i = choose|i: int| 0 <= i < a.len() && a[i].0 == y;
        if i < a.len() - 1 {
            assert(a[i].0 < a[a.len() - 1].0);
        }
        assert(x == y);
        lemma_parts_map_drop_last(a);
        lemma_parts_map_drop_last(b);
        lemma_parts_unique(a.drop_last(), b.drop_last());
        assert(a =~= a.drop_last().push(a.last()));
        assert(b =~= b.drop_last().push(b.last()));
    }
}

/// Every point of a partition map, partition after partition in ascending
/// start order.
pub open spec fn map_points<V>(m: Map<u64, Seq<DataPoint<V>>>) -> Seq<DataPoint<V>> {
    parts_points(choose|ps: Seq<(u64, Seq<DataPoint<V>>)>| keys_ascending(ps) && parts_map(ps) == m)
}

/// The points of an ascending partition list are those of its map.
proof fn lemma_map_points<V>(ps: Seq<(u64, Seq<DataPoint<V>>)>)
    requires
        keys_ascending(ps),
    ensures
        map_points(parts_map(ps)) == parts_points(ps),
{
    let m = parts_map(ps);
    let c = choose|c: Seq<(u64, Seq<DataPoint<V>>)>| keys_ascending(c) && parts_map(c) == m;
    lemma_parts_unique(c, ps);
}

proof fn lemma_parts_points_concat<V>(a: Seq<(u64, Seq<DataPoint<V>>)>, b: Seq<(u64, Seq<DataPoint<V>>)>)
    ensures
        parts_points(a + b) == parts_points(a) + parts_points(b),
{
    let f = |pr: (u64, Seq<DataPoint<V>>)| pr.1;
    assert((a + b).map_values(f) =~= a.map_values(f) + b.map_values(f));
    lemma_flatten_concat(a.map_values(f), b.map_values(f));
}

proof fn lemma_parts_points_push<V>(a: Seq<(u64, Seq<DataPoint<V>>)>, x: (u64, Seq<DataPoint<V>>))
    ensures
        parts_points(a.push(x)) == parts_points(a) + x.1,
{
    lemma_parts_points_concat(a, seq![x]);
    let f = |pr: (u64, Seq<DataPoint<V>>)| pr.1;
    assert(seq![x].map_values(f) =~= seq![x.1]);
    seq![x.1].lemma_flatten_one_element();
    assert(a.push(x) =~= a + seq![x]);
}

/// If no point of any partition satisfies `pred`, filtering all points by it
/// keeps nothing.
proof fn lemma_parts_points_filter_none<V>(ps: Seq<(u64, Seq<DataPoint<V>>)>, pred: spec_fn(DataPoint<V>) -> bool)
    requires
        forall|i: int, j: int| 0 <= i < ps.len() && 0 <= j < ps[i].1.len() ==> !pred(#[trigger] ps[i].1[j]),
    ensures
        parts_points(ps).filter(pred) == Seq::<DataPoint<V>>::empty(),
    decreases ps.len(),
{
    if ps.len() > 0 {
        let t = ps.drop_last();
        let x = ps.last();
        lemma_parts_points_filter_none(t, pred);
        assert(t.push(x) =~= ps);
        lemma_parts_points_push(t, x);
        Seq::filter_distributes_over_add(parts_points(t), x.1, pred);
        assert forall|j: int| 0 <= j < x.1.len() implies !pred(#[trigger] x.1[j]) by {
            assert(ps[ps.len() - 1].1[j] == x.1[j]);
        }
        lemma_filter_keeps_none(x.1, pred);
        assert(parts_points(ps).filter(pred) =~= Seq::<DataPoint<V>>::empty());
    } else {
        assert(parts_points(ps) =~= Seq::<DataPoint<V>>::empty());
        lemma_filter_keeps_none(parts_points(ps), pred);
    }
}

/// The points of well-formed partitions come out in time order, and each lies
/// in the bucket of one of the partitions.
proof fn lemma_parts_points_sorted<V>(ps: Seq<(u64, Seq<DataPoint<V>>)>, size: u64)
    requires
        size >= 1,
        parts_wf(ps, size),
    ensures
        sorted_by_time(parts_points(ps)),
        forall|k: int|
            0 <= k < parts_points(ps).len() ==> exists|i: int|
                0 <= i < ps.len() && aligned_start((#[trigger] parts_points(ps)[k]).timestamp as int, size as int)
                    == ps[i].0,
    decreases ps.len(),
{
    if ps.len() == 0 {
        assert(parts_points(ps) =~= Seq::<DataPoint<V>>::empty());
    } else {
        let t = ps.drop_last();
        let x = ps.last();
        assert(parts_wf(t, size)) by {
            assert forall|i: int| 0 <= i < t.len() implies (#[trigger] t[i]).1.len() > 0 by {
                assert(t[i] == ps[i]);
            }
            assert forall|i: int, j: int| 0 <= i < t.len() && 0 <= j < t[i].1.len() implies aligned_start(
                (#[trigger] t[i].1[j]).timestamp as int,
                size as int,
            ) == t[i].0 by {
                assert(t[i] == ps[i]);
            }
            assert forall|i: int| 0 <= i < t.len() implies sorted_by_time((#[trigger] t[i]).1) by {
                assert(t[i] == ps[i]);
            }
        }
        lemma_parts_points_sorted(t, size);
        assert(t.push(x) =~= ps);
        lemma_parts_points_push(t, x);
        let a = parts_points(t);
        let r = parts_points(ps);
        assert(r == a + x.1);
        assert(ps[ps.len() - 1] == x);
        assert forall|k: int| 0 <= k < a.len() implies (#[trigger] a[k]).timestamp < x.1[0].timestamp by {
            let i = choose|i: int| 0 <= i < t.len() && aligned_start(a[k].timestamp as int, size as int) == t[i].0;
            assert(t[i] == ps[i]);
            assert(ps[i].0 < x.0);
            assert(aligned_start(x.1[0].timestamp as int, size as int) == x.0);
            if a[k].timestamp >= x.1[0].timestamp {
                lemma_aligned_start_monotonic(x.1[0].timestamp as int, a[k].timestamp as int, size as int);
            }
        }
        assert forall|i: int, j: int| 0 <= i <= j < r.len() implies r[i].timestamp <= r[j].timestamp by {
            if j < a.len() {
                assert(r[i] == a[i] && r[j] == a[j]);
            } else if i >= a.len() {
                assert(r[i] == x.1[i - a.len()] && r[j] == x.1[j - a.len()]);
            } else {
                assert(r[i] == a[i] && r[j] == x.1[j - a.len()]);
                assert(x.1[0].timestamp <= x.1[j - a.len()].timestamp);
            }
        }
        assert forall|k: int| 0 <= k < r.len() implies exists|i: int|
            0 <= i < ps.len() && aligned_start((#[trigger] r[k]).timestamp as int, size as int) == ps[i].0 by {
            if k < a.len() {
                assert(r[k] == a[k]);
                let i = choose|i: int| 0 <= i < t.len() && aligned_start(a[k].timestamp as int, size as int) == t[i].0;
                assert(t[i] == ps[i]);
            } else {
                assert(r[k] == x.1[k - a.len()]);
                assert(aligned_start(x.1[k - a.len()].timestamp as int, size as int) == ps[ps.len() - 1].0);
            }
        }
    }
}

/// With partitions in ascending start order, the expired ones form a prefix:
/// once the first `k` are expired and the next is not, keeping the unexpired
/// ones keeps exactly the suffix from `k`, with the matching map.
proof fn lemma_expired_prefix<V>(ps: Seq<(u64, Seq<DataPoint<V>>)>, k: int, size: u64, cutoff: u64)
    requires
        parts_wf(ps, size),
        0 <= k <= ps.len(),
        forall|i: int| 0 <= i < k ==> is_expired_spec((#[trigger] ps[i]).0, size, cutoff),
        k < ps.len() ==> !is_expired_spec(ps[k].0, size, cutoff),
    ensures
        ps.filter(|e: (u64, Seq<DataPoint<V>>)| !is_expired_spec(e.0, size, cutoff)) == ps.subrange(k, ps.len() as int),
        parts_map(ps.subrange(k, ps.len() as int)) == retain_series(parts_map(ps), size, cutoff),
        parts_wf(ps.subrange(k, ps.len() as int), size),
{
    let keep = |e: (u64, Seq<DataPoint<V>>)| !is_expired_spec(e.0, size, cutoff);
    assert forall|i: int| k <= i < ps.len() implies keep(#[trigger] ps[i]) by {
        if i > k {
            assert(ps[k].0 < ps[i].0);
        }
    }
    lemma_filter_split(ps, k, keep);
    lemma_parts_wf_suffix(ps, k, size);
    lemma_restrict_suffix(ps, k, size, cutoff);
}

proof fn lemma_parts_wf_suffix<V>(ps: Seq<(u64, Seq<DataPoint<V>>)>, k: int, size: u64)
    requires
        parts_wf(ps, size),
        0 <= k <= ps.len(),
    ensures
        parts_wf(ps.subrange(k, ps.len() as int), size),
{
    let b = ps.subrange(k, ps.len() as int);
    assert forall|i: int| 0 <= i < b.len() implies (#[trigger] b[i]) == ps[k + i] by {}
    assert(keys_ascending(b)) by {
        assert forall|i: int, j: int| 0 <= i < j < b.len() implies b[i].0 < b[j].0 by {
            assert(b[i] == ps[k + i]);
            assert(b[j] == ps[k + j]);
        }
    }
}

proof fn lemma_parts_wf_subrange<V>(ps: Seq<(u64, Seq<DataPoint<V>>)>, lo: int, hi: int, size: u64)
    requires
        parts_wf(ps, size),
        0 <= lo <= hi <= ps.len(),
    ensures
        parts_wf(ps.subrange(lo, hi), size),
{
    let b = ps.subrange(lo, hi);
    assert forall|i: int| 0 <= i < b.len() implies (#[trigger] b[i]) == ps[lo + i] by {}
    assert(keys_ascending(b)) by {
        assert forall|i: int, j: int| 0 <= i < j < b.len() implies b[i].0 < b[j].0 by {
            assert(b[i] == ps[lo + i]);
            assert(b[j] == ps[lo + j]);
        }
    }
}

/// Every point of partitions that all start before the bucket of `t` is
/// stamped before `t`; every point of partitions that all start after it is
/// stamped after `t`.
proof fn lemma_parts_points_side<V>(ps: Seq<(u64, Seq<DataPoint<V>>)>, size: u64, t: u64, before: bool)
    requires
        size >= 1,
        parts_wf(ps, size),
        before ==> forall|i: int| 0 <= i < ps.len() ==> (#[trigger] ps[i]).0 < bucket_of(t, size),
        !before ==> forall|i: int| 0 <= i < ps.len() ==> (#[trigger] ps[i]).0 > bucket_of(t, size),
    ensures
        forall|k: int|
            0 <= k < parts_points(ps).len() ==> if before {
                (#[trigger] parts_points(ps)[k]).timestamp < t
            } else {
                parts_points(ps)[k].timestamp > t
            },
{
    lemma_parts_points_sorted(ps, size);
    lemma_aligned_start_bounds(t as int, size as int);
    assert forall|k: int| 0 <= k < parts_points(ps).len() implies if before {
        (#[trigger] parts_points(ps)[k]).timestamp < t
    } else {
        parts_points(ps)[k].timestamp > t
    } by {
        let x = parts_points(ps)[k];
        let i = choose|i: int| 0 <= i < ps.len() && aligned_start(x.timestamp as int, size as int) == ps[i].0;
        if before {
            if x.timestamp >= t {
                lemma_aligned_start_monotonic(t as int, x.timestamp as int, size as int);
            }
        } else {
            if x.timestamp <= t {
                lemma_aligned_start_monotonic(x.timestamp as int, t as int, size as int);
            }
        }
    }
}

/// The points of a series after ingesting `p` are its points before with `p`
/// inserted in stable time order: after every point stamped at or before it.
/// So the points of a series do not depend on its partition width.
#[verifier::rlimit(60)]
pub proof fn lemma_series_insert_sorted<V>(m: Map<u64, Seq<DataPoint<V>>>, size: u64, p: DataPoint<V>)
    requires
        size >= 1,
        is_series_map(m, size),
    ensures
        map_points(series_insert(m, size, p)) == insert_sorted(map_points(m), p),
{
    let ps = choose|ps: Seq<(u64, Seq<DataPoint<V>>)>| parts_wf(ps, size) && parts_map(ps) == m;
    let s = bucket_of(p.timestamp, size);
    let t = p.timestamp;
    let k = lower_index(ps, s);
    let r = lemma_insert_parts(ps, k, size, p);
    lemma_map_points(ps);
    lemma_map_points(r);
    lemma_parts_points_sorted(ps, size);
    let found = k < ps.len() && ps[k].0 == s;
    let c_from = if found { k + 1 } else { k };
    let a = ps.subrange(0, k);
    let c = ps.subrange(c_from, ps.len() as int);
    lemma_parts_wf_subrange(ps, 0, k, size);
    lemma_parts_wf_subrange(ps, c_from, ps.len() as int, size);
    assert forall|i: int| 0 <= i < a.len() implies (#[trigger] a[i]).0 < bucket_of(t, size) by {
        assert(a[i] == ps[i]);
    }
    assert forall|i: int| 0 <= i < c.len() implies (#[trigger] c[i]).0 > bucket_of(t, size) by {
        assert(c[i] == ps[c_from + i]);
        if !found && c_from + i == k {
            assert(ps[k].0 != s);
        } else if found {
            assert(ps[k].0 < ps[c_from + i].0);
        } else {
            assert(ps[k].0 < ps[c_from + i].0);
        }
    }
    lemma_parts_points_side(a, size, t, true);
    lemma_parts_points_side(c, size, t, false);
    let pa = parts_points(a);
    let pc = parts_points(c);
    if found {
        assert(ps =~= a + seq![ps[k]] + c);
        assert(r =~= a + seq![r[k]] + c);
        lemma_parts_points_three(a, ps[k], c);
        lemma_parts_points_three(a, r[k], c);
        crate::point::lemma_insert_sorted_middle(pa, ps[k].1, pc, p);
    } else {
        assert(ps =~= a + c);
        assert(r =~= a + seq![r[k]] + c);
        lemma_parts_points_concat(a, c);
        lemma_parts_points_three(a, r[k], c);
        let e = Seq::<DataPoint<V>>::empty();
        lemma_filter_keeps_none(e, crate::point::at_or_before::<V>(p.timestamp as int));
        assert(insert_sorted(e, p) =~= seq![p]);
        assert(pa + e + pc =~= pa + pc);
        crate::point::lemma_insert_sorted_middle(pa, e, pc, p);
    }
}

proof fn lemma_parts_points_three<V>(
    a: Seq<(u64, Seq<DataPoint<V>>)>,
    x: (u64, Seq<DataPoint<V>>),
    c: Seq<(u64, Seq<DataPoint<V>>)>,
)
    ensures
        parts_points(a + seq![x] + c) == parts_points(a) + x.1 + parts_points(c),
{
    lemma_parts_points_concat(a + seq![x], c);
    lemma_parts_points_concat(a, seq![x]);
    lemma_parts_points_single(x);
}

proof fn lemma_restrict_suffix<V>(ps: Seq<(u64, Seq<DataPoint<V>>)>, k: int, size: u64, cutoff: u64)
    requires
        keys_ascending(ps),
        0 <= k <= ps.len(),
        forall|i: int| 0 <= i < k ==> is_expired_spec((#[trigger] ps[i]).0, size, cutoff),
        forall|i: int| k <= i < ps.len() ==> !is_expired_spec((#[trigger] ps[i]).0, size, cutoff),
    ensures
        parts_map(ps.subrange(k, ps.len() as int)) == retain_series(parts_map(ps), size, cutoff),
{
    let b = ps.subrange(k, ps.len() as int);
    assert(keys_ascending(b)) by {
        assert forall|i: int, j: int| 0 <= i < j < b.len() implies b[i].0 < b[j].0 by {
            assert(b[i] == ps[k + i]);
            assert(b[j] == ps[k + j]);
        }
    }
    let old_m = parts_map(ps);
    let m = retain_series(old_m, size, cutoff);
    assert forall|i: int| 0 <= i < b.len() implies m.dom().contains((#[trigger] b[i]).0) && m[b[i].0] == b[i].1 by {
        assert(b[i] == ps[k + i]);
        lemma_parts_map_at(ps, k + i);
    }
    assert forall|s: u64| m.dom().contains(s) implies has_key(b, s) by {
        assert(has_key(ps, s));
        let j = choose|j: int| 0 <= j < ps.len() && ps[j].0 == s;
        if j < k {
            assert(is_expired_spec(ps[j].0, size, cutoff));
        } else {
            assert(b[j - k] == ps[j]);
        }
    }
    lemma_parts_map_ext(b, m);
}

/// The start of the partition that holds tick `t`.
pub open spec fn bucket_of(t: u64, size: u64) -> u64 {
    aligned_start(t as int, size as int) as u64
}

/// Ingesting `p` into well-formed partitions whose first `k` start before the
/// point's bucket and whose rest start at or after it: the point joins the
/// partition at `k` if that is its bucket, or a new partition is placed at `k`.
proof fn lemma_insert_parts<V>(ps: Seq<(u64, Seq<DataPoint<V>>)>, k: int, size: u64, p: DataPoint<V>) -> (r: Seq<
    (u64, Seq<DataPoint<V>>),
>)
    requires
        size >= 1,
        parts_wf(ps, size),
        0 <= k <= ps.len(),
        forall|i: int| 0 <= i < k ==> (#[trigger] ps[i]).0 < bucket_of(p.timestamp, size),
        forall|i: int| k <= i < ps.len() ==> (#[trigger] ps[i]).0 >= bucket_of(p.timestamp, size),
    ensures
        r == if k < ps.len() && ps[k].0 == bucket_of(p.timestamp, size) {
            ps.update(k, (ps[k].0, insert_sorted(ps[k].1, p)))
        } else {
            ps.insert(k, (bucket_of(p.timestamp, size), seq![p]))
        },
        parts_wf(r, size),
        parts_map(r) == series_insert(parts_map(ps), size, p),
        parts_points(r).to_multiset() == parts_points(ps).to_multiset().insert(p),
{
    let start = bucket_of(p.timestamp, size);
    lemma_aligned_start_bounds(p.timestamp as int, size as int);
    let m = series_insert(parts_map(ps), size, p);
    let a = ps.subrange(0, k);
    let c_from = if k < ps.len() && ps[k].0 == start { k + 1 } else { k };
    let c = ps.subrange(c_from, ps.len() as int);
    if k < ps.len() && ps[k].0 == start {
        let new_entry = (start, insert_sorted(ps[k].1, p));
        let r = ps.update(k, new_entry);
        lemma_parts_map_at(ps, k);
        lemma_insert_sorted(ps[k].1, p);
        assert(parts_wf(r, size)) by {
            assert forall|j: int| 0 <= j < new_entry.1.len() implies aligned_start(
                (#[trigger] new_entry.1[j]).timestamp as int,
                size as int,
            ) == new_entry.0 by {
                if new_entry.1[j] != p {
                    let q = choose|q: int| 0 <= q < ps[k].1.len() && ps[k].1[q] == new_entry.1[j];
                }
            }
            assert forall|i: int| 0 <= i < r.len() implies (#[trigger] r[i]).1.len() > 0 by {}
        }
        assert forall|i: int| 0 <= i < r.len() implies m.dom().contains((#[trigger] r[i]).0) && m[r[i].0]
            == r[i].1 by {
            if i != k {
                lemma_parts_map_at(ps, i);
            }
        }
        assert forall|s: u64| m.dom().contains(s) implies has_key(r, s) by {
            if s != start {
                assert(has_key(ps, s));
                let j = choose|j: int| 0 <= j < ps.len() && ps[j].0 == s;
                assert(r[j].0 == s);
            } else {
                assert(r[k].0 == s);
            }
        }
        lemma_parts_map_ext(r, m);
        assert(ps =~= a + seq![ps[k]] + c);
        assert(r =~= a + seq![new_entry] + c);
        lemma_parts_points_concat(a + seq![ps[k]], c);
        lemma_parts_points_concat(a, seq![ps[k]]);
        lemma_parts_points_concat(a + seq![new_entry], c);
        lemma_parts_points_concat(a, seq![new_entry]);
        lemma_parts_points_single(ps[k]);
        lemma_parts_points_single(new_entry);
        vstd::seq_lib::lemma_multiset_commutative(parts_points(a) + ps[k].1, parts_points(c));
        vstd::seq_lib::lemma_multiset_commutative(parts_points(a), ps[k].1);
        vstd::seq_lib::lemma_multiset_commutative(parts_points(a) + new_entry.1, parts_points(c));
        vstd::seq_lib::lemma_multiset_commutative(parts_points(a), new_entry.1);
        assert(parts_points(r).to_multiset() =~= parts_points(ps).to_multiset().insert(p));
        r
    } else {
        let new_entry = (start, seq![p]);
        let r = ps.insert(k, new_entry);
        let e = Seq::<DataPoint<V>>::empty();
        lemma_filter_keeps_none(e, crate::point::at_or_before::<V>(p.timestamp as int));
        assert(insert_sorted(e, p) =~= seq![p]);
        assert(!parts_map(ps).dom().contains(start)) by {
            if has_key(ps, start) {
                let j = choose|j: int| 0 <= j < ps.len() && ps[j].0 == start;
                if j > k {
                    assert(ps[k].0 < ps[j].0);
                }
            }
        }
        assert(keys_ascending(r)) by {
            assert forall|i: int, j: int| 0 <= i < j < r.len() implies r[i].0 < r[j].0 by {
                if j == k {
                    assert(ps[i].0 < start);
                } else if i == k {
                    assert(ps[j - 1].0 >= start);
                    if j - 1 == k {
                        assert(ps[j - 1].0 != start);
                    } else {
                        assert(ps[k].0 < ps[j - 1].0);
                    }
                } else if i < k && j > k {
                    assert(r[j] == ps[j - 1]);
                } else if i > k {
                    assert(r[i] == ps[i - 1]);
                    assert(r[j] == ps[j - 1]);
                }
            }
        }
        assert(parts_wf(r, size)) by {
            assert forall|i: int| 0 <= i < r.len() implies (#[trigger] r[i]).1.len() > 0 && sorted_by_time(r[i].1)
                && forall|j: int|
                0 <= j < r[i].1.len() ==> aligned_start((#[trigger] r[i].1[j]).timestamp as int, size as int)
                    == r[i].0 by {
                if i < k {
                    assert(r[i] == ps[i]);
                } else if i > k {
                    assert(r[i] == ps[i - 1]);
                }
            }
        }
        assert forall|i: int| 0 <= i < r.len() implies m.dom().contains((#[trigger] r[i]).0) && m[r[i].0]
            == r[i].1 by {
            if i < k {
                lemma_parts_map_at(ps, i);
            } else if i > k {
                lemma_parts_map_at(ps, i - 1);
            }
        }
        assert forall|s: u64| m.dom().contains(s) implies has_key(r, s) by {
            if s != start {
                assert(has_key(ps, s));
                let j = choose|j: int| 0 <= j < ps.len() && ps[j].0 == s;
                if j < k {
                    assert(r[j].0 == s);
                } else {
                    assert(r[j + 1].0 == s);
                }
            } else {
                assert(r[k].0 == s);
            }
        }
        lemma_parts_map_ext(r, m);
        assert(ps =~= a + c);
        assert(r =~= a + seq![new_entry] + c);
        lemma_parts_points_concat(a, c);
        lemma_parts_points_concat(a + seq![new_entry], c);
        lemma_parts_points_concat(a, seq![new_entry]);
        lemma_parts_points_single(new_entry);
        vstd::seq_lib::lemma_multiset_commutative(parts_points(a), parts_points(c));
        vstd::seq_lib::lemma_multiset_commutative(parts_points(a) + seq![p], parts_points(c));
        vstd::seq_lib::lemma_multiset_commutative(parts_points(a), seq![p]);
        assert(seq![p].to_multiset() =~= Multiset::<DataPoint<V>>::empty().insert(p)) by {
            vstd::seq_lib::to_multiset_build(Seq::<DataPoint<V>>::empty(), p);
            assert(Seq::<DataPoint<V>>::empty().push(p) =~= seq![p]);
            assert(Seq::<DataPoint<V>>::empty().to_multiset() =~= Multiset::<DataPoint<V>>::empty()) by {
                vstd::seq_lib::to_multiset_len(Seq::<DataPoint<V>>::empty());
            }
        }
        assert(parts_points(r).to_multiset() =~= parts_points(ps).to_multiset().insert(p));
        r
    }
}

proof fn lemma_parts_points_single<V>(x: (u64, Seq<DataPoint<V>>))
    ensures
        parts_points(seq![x]) == x.1,
{
    lemma_parts_points_push(Seq::<(u64, Seq<DataPoint<V>>)>::empty(), x);
    assert(Seq::<(u64, Seq<DataPoint<V>>)>::empty().push(x) =~= seq![x]);
    assert(parts_points(Seq::<(u64, Seq<DataPoint<V>>)>::empty()) =~= Seq::<DataPoint<V>>::empty());
    assert(Seq::<DataPoint<V>>::empty() + x.1 =~= x.1);
}

/// Whether a partition map is the map of a well-formed series of width-`size`
/// partitions.
pub open spec fn is_series_map<V>(m: Map<u64, Seq<DataPoint<V>>>, size: u64) -> bool {
    exists|ps: Seq<(u64, Seq<DataPoint<V>>)>| parts_wf(ps, size) && parts_map(ps) == m
}

/// The empty map is the map of the empty series.
pub proof fn lemma_empty_is_series_map<V>(size: u64)
    ensures
        is_series_map(Map::<u64, Seq<DataPoint<V>>>::empty(), size),
        map_points(Map::<u64, Seq<DataPoint<V>>>::empty()) == Seq::<DataPoint<V>>::empty(),
{
    let ps = Seq::<(u64, Seq<DataPoint<V>>)>::empty();
    assert(parts_map(ps) =~= Map::<u64, Seq<DataPoint<V>>>::empty());
    assert(parts_wf(ps, size));
    lemma_map_points(ps);
    assert(parts_points(ps) =~= Seq::<DataPoint<V>>::empty());
}

/// Ingestion loses nothing and adds exactly the ingested point: the points of
/// a series after [`series_insert`] are its points before, plus `p`.
pub proof fn lemma_series_insert_points<V>(m: Map<u64, Seq<DataPoint<V>>>, size: u64, p: DataPoint<V>)
    requires
        size >= 1,
        is_series_map(m, size),
    ensures
        is_series_map(series_insert(m, size, p), size),
        map_points(series_insert(m, size, p)).to_multiset() == map_points(m).to_multiset().insert(p),
{
    let ps = choose|ps: Seq<(u64, Seq<DataPoint<V>>)>| parts_wf(ps, size) && parts_map(ps) == m;
    let k = lower_index(ps, bucket_of(p.timestamp, size));
    let r = lemma_insert_parts(ps, k, size, p);
    lemma_map_points(ps);
    lemma_map_points(r);
}

/// The index of the first partition starting at or after `s`.
proof fn lower_index<V>(ps: Seq<(u64, Seq<DataPoint<V>>)>, s: u64) -> (k: int)
    requires
        keys_ascending(ps),
    ensures
        0 <= k <= ps.len(),
        forall|i: int| 0 <= i < k ==> (#[trigger] ps[i]).0 < s,
        forall|i: int| k <= i < ps.len() ==> (#[trigger] ps[i]).0 >= s,
    decreases ps.len(),
{
    if ps.len() == 0 || ps.last().0 < s {
        assert forall|i: int| 0 <= i < ps.len() implies (#[trigger] ps[i]).0 < s by {
            if i < ps.len() - 1 {
                assert(ps[i].0 < ps[ps.len() - 1].0);
            }
        }
        ps.len() as int
    } else {
        let d = ps.drop_last();
        let k = lower_index(d, s);
        assert forall|i: int| 0 <= i < k implies (#[trigger] ps[i]).0 < s by {
            assert(ps[i] == d[i]);
        }
        assert forall|i: int| k <= i < ps.len() implies (#[trigger] ps[i]).0 >= s by {
            if i < ps.len() - 1 {
                assert(ps[i] == d[i]);
            }
        }
        k
    }
}

/// How many leading partitions have expired at `cutoff`.
proof fn expired_prefix_len<V>(ps: Seq<(u64, Seq<DataPoint<V>>)>, size: u64, cutoff: u64) -> (k: int)
    ensures
        0 <= k <= ps.len(),
        forall|i: int| 0 <= i < k ==> is_expired_spec((#[trigger] ps[i]).0, size, cutoff),
        k < ps.len() ==> !is_expired_spec(ps[k].0, size, cutoff),
    decreases ps.len(),
{
    if ps.len() == 0 || !is_expired_spec(ps[0].0, size, cutoff) {
        0
    } else {
        let rest = ps.drop_first();
        let k = expired_prefix_len(rest, size, cutoff);
        assert forall|i: int| 0 <= i < k + 1 implies is_expired_spec((#[trigger] ps[i]).0, size, cutoff) by {
            if i > 0 {
                assert(ps[i] == rest[i - 1]);
            }
        }
        if k + 1 < ps.len() {
            assert(ps[k + 1] == rest[k]);
        }
        k + 1
    }
}

/// Retention at a cutoff drops exactly the partitions lying entirely before
/// it, whatever their width: a partition starting at `b` stays iff its last
/// tick `b + size - 1` is at or after the cutoff (one running past the end of
/// time stays unless the cutoff is `u64::MAX`), and what stays keeps its
/// points.
pub proof fn lemma_retain_drops_exactly_the_past<V>(m: Map<u64, Seq<DataPoint<V>>>, size: u64, cutoff: u64)
    requires
        size >= 1,
    ensures
        forall|b: u64|
            #[trigger] retain_series(m, size, cutoff).dom().contains(b) <==> (m.dom().contains(b) && if b + size
                <= u64::MAX {
                b + size - 1 >= cutoff
            } else {
                cutoff < u64::MAX
            }),
        forall|b: u64|
            #[trigger] retain_series(m, size, cutoff).dom().contains(b) ==> retain_series(m, size, cutoff)[b]
                == m[b],
{
    assert forall|b: u64|
        #[trigger] retain_series(m, size, cutoff).dom().contains(b) <==> (m.dom().contains(b) && if b + size
            <= u64::MAX {
            b + size - 1 >= cutoff
        } else {
            cutoff < u64::MAX
        }) by {
        crate::retention::lemma_expired_iff_entirely_before(b, size, cutoff);
    }
}

/// Retention never loses a point at or after the cutoff: it drops only
/// partitions lying entirely before it. (At a cutoff of `u64::MAX` a last
/// partition whose end saturates counts as expired, so the law asks for a
/// cutoff below it.)
pub proof fn lemma_retention_keeps_recent<V>(m: Map<u64, Seq<DataPoint<V>>>, size: u64, cutoff: u64)
    requires
        size >= 1,
        is_series_map(m, size),
        cutoff < u64::MAX,
    ensures
        is_series_map(retain_series(m, size, cutoff), size),
        map_points(retain_series(m, size, cutoff)).filter(at_or_after(cutoff as int)) == map_points(m).filter(
            at_or_after(cutoff as int),
        ),
{
    let ps = choose|ps: Seq<(u64, Seq<DataPoint<V>>)>| parts_wf(ps, size) && parts_map(ps) == m;
    let k = expired_prefix_len(ps, size, cutoff);
    lemma_expired_prefix(ps, k, size, cutoff);
    let a = ps.subrange(0, k);
    let b = ps.subrange(k, ps.len() as int);
    lemma_map_points(ps);
    lemma_map_points(b);
    assert(ps =~= a + b);
    lemma_parts_points_concat(a, b);
    let f = at_or_after::<V>(cutoff as int);
    Seq::filter_distributes_over_add(parts_points(a), parts_points(b), f);
    assert forall|i: int, j: int| 0 <= i < a.len() && 0 <= j < a[i].1.len() implies !f(#[trigger] a[i].1[j]) by {
        assert(a[i] == ps[i]);
        lemma_aligned_start_bounds(a[i].1[j].timestamp as int, size as int);
    }
    lemma_parts_points_filter_none(a, f);
    assert(parts_points(ps).filter(f) =~= parts_points(b).filter(f));
}

impl<V: Copy> Partition<V> {
    /// A partition's start together with its points.
    pub open spec fn entry(&self) -> (u64, Seq<DataPoint<V>>) {
        (self.start_spec(), self@)
    }
}

/// One metric series, partitioned into fixed-width time buckets.
///
/// The partitions are held in a `Vec` kept in ascending start order and
/// searched by binary search rather than in a `BTreeMap`: a scan takes the
/// partitions whose starts fall in a key range, in order, an ingest changes
/// one partition in place, and retention drops entries in place, while vstd
/// specifies no `range`, `entry`, `get_mut`, `values_mut` or `retain` for
/// `BTreeMap`.
#[derive(Debug, Clone)]
pub struct Series<V> {
    partition_size: u64,
    partitions: Vec<Partition<V>>,
}

impl<V: Copy> Series<V> {
    /// The series' partitions, as (start, points) pairs in ascending start order.
    pub closed spec fn parts(&self) -> Seq<(u64, Seq<DataPoint<V>>)> {
        self.partitions@.map_values(|p: Partition<V>| p.entry())
    }

    /// The width of the series' partitions.
    pub closed spec fn partition_size_spec(&self) -> u64 {
        self.partition_size
    }

    /// Every point of the series, partition after partition in ascending
    /// start order.
    pub open spec fn points(&self) -> Seq<DataPoint<V>> {
        map_points(self@)
    }

    proof fn lemma_points_parts(&self)
        requires
            self.wf(),
        ensures
            self.points() == parts_points(self.parts()),
    {
        lemma_map_points(self.parts());
    }

    /// The series' internal invariant.
    pub closed spec fn wf(&self) -> bool {
        &&& self.partition_size >= 1
        &&& parts_wf(self.parts(), self.partition_size)
        &&& forall|i: int|
            0 <= i < self.partitions@.len() ==> {
                &&& (#[trigger] self.partitions@[i]).wf()
                &&& self.partitions@[i].size_spec() == self.partition_size
            }
    }

    /// The partition start for a tick: the start of its aligned bucket.
    fn partition_start(&self, ts: Timestamp) -> (r: Timestamp)
        requires
            self.wf(),
        ensures
            r == aligned_start(ts as int, self.partition_size as int),
    {
        proof {
            lemma_aligned_start_bounds(ts as int, self.partition_size as int);
        }
        (ts / self.partition_size) * self.partition_size
    }

    /// Index of the first partition whose start is at or after `s`.
    fn lower_bound(&self, s: u64) -> (k: usize)
        requires
            self.wf(),
        ensures
            k <= self.parts().len(),
            forall|i: int| 0 <= i < k ==> (#[trigger] self.parts()[i]).0 < s,
            forall|i: int| k <= i < self.parts().len() ==> (#[trigger] self.parts()[i]).0 >= s,
    {
        let mut lo: usize = 0;
        let mut hi: usize = self.partitions.len();
        while lo < hi
            invariant
                lo <= hi <= self.parts().len(),
                self.parts().len() == self.partitions@.len(),
                keys_ascending(self.parts()),
                forall|i: int| 0 <= i < lo ==> (#[trigger] self.parts()[i]).0 < s,
                forall|i: int| hi <= i < self.parts().len() ==> (#[trigger] self.parts()[i]).0 >= s,
            decreases hi - lo,
        {
            let mid = lo + (hi - lo) / 2;
            assert(self.parts()[mid as int].0 == self.partitions@[mid as int].start_spec());
            if self.partitions[mid].start() < s {
                lo = mid + 1;
            } else {
                hi = mid;
            }
        }
        lo
    }

    /// Creates an empty series whose partitions are `partition_size` ticks wide
    /// (clamped to at least 1).
    pub fn new(partition_size: u64) -> (r: Self)
        ensures
            r.wf(),
            r.partition_size_spec() == if partition_size >= 1 { partition_size } else { 1 },
            r@ == Map::<u64, Seq<DataPoint<V>>>::empty(),
            r.parts() == Seq::<(u64, Seq<DataPoint<V>>)>::empty(),
    {
        let size = if partition_size >= 1 { partition_size } else { 1 };
        let r = Series { partition_size: size, partitions: Vec::new() };
        assert(r.parts() =~= Seq::<(u64, Seq<DataPoint<V>>)>::empty());
        assert(parts_map(r.parts()) =~= Map::<u64, Seq<DataPoint<V>>>::empty());
        r
    }

    /// The number of partitions.
    pub fn partition_count(&self) -> (r: usize)
        requires
            self.wf(),
        ensures
            r == self.parts().len(),
            r == self@.dom().len(),
    {
        proof {
            self.lemma_dom_len();
        }
        self.partitions.len()
    }

    /// A well-formed series has finitely many partitions, one per map key.
    pub(crate) proof fn lemma_dom_len(&self)
        requires
            self.wf(),
        ensures
            self@.dom().len() == self.parts().len(),
            self@.dom().finite(),
    {
        let ps = self.parts();
        let keys = ps.map_values(|pr: (u64, Seq<DataPoint<V>>)| pr.0);
        assert(keys.no_duplicates()) by {
            assert forall|i: int, j: int| 0 <= i < keys.len() && 0 <= j < keys.len() && i != j implies
                keys[i] != keys[j] by {
                if i < j {
                    assert(ps[i].0 < ps[j].0);
                } else {
                    assert(ps[j].0 < ps[i].0);
                }
            }
        }
        keys.unique_seq_to_set();
        assert(self@.dom() =~= keys.to_set()) by {
            assert forall|s: u64| self@.dom().contains(s) implies keys.to_set().contains(s) by {
                let i = choose|i: int| 0 <= i < ps.len() && ps[i].0 == s;
                assert(keys[i] == s);
            }
            assert forall|s: u64| keys.to_set().contains(s) implies self@.dom().contains(s) by {
                let i = choose|i: int| 0 <= i < keys.len() && keys[i] == s;
                assert(ps[i].0 == s);
                assert(has_key(ps, s));
            }
        }
        vstd::seq_lib::seq_to_set_is_finite(keys);
    }

    /// Ingests a point into its time-aligned partition.
    pub fn insert(&mut self, point: DataPoint<V>)
        requires
            old(self).wf(),
        ensures
            final(self).wf(),
            final(self).partition_size_spec() == old(self).partition_size_spec(),
            final(self)@ == series_insert(old(self)@, old(self).partition_size_spec(), point),
            final(self).points().to_multiset() == old(self).points().to_multiset().insert(point),
    {
        let start = self.partition_start(point.timestamp);
        let size = self.partition_size;
        let k = self.lower_bound(start);
        let ghost old_ps = self.parts();
        let ghost new_ps = lemma_insert_parts(old_ps, k as int, size, point);
        let ghost old_parts = self.partitions@;
        if k < self.partitions.len() && self.partitions[k].start() == start {
            assert(old_ps[k as int].0 == start);
            self.partitions[k].insert(point);
            assert(self.parts() =~= new_ps);
        } else {
            let mut p = Partition::new(start, size);
            p.insert(point);
            self.partitions.insert(k, p);
            proof {
                let e = Seq::<DataPoint<V>>::empty();
                lemma_filter_keeps_none(e, crate::point::at_or_before::<V>(point.timestamp as int));
                assert(insert_sorted(e, point) =~= seq![point]);
                assert(self.parts() =~= new_ps);
            }
        }
        proof {
            lemma_map_points(old_ps);
            lemma_map_points(new_ps);
        }
    }

    /// Every point of a well-formed series, in order, is sorted by time.
    pub proof fn lemma_points_sorted(&self)
        requires
            self.wf(),
        ensures
            sorted_by_time(self.points()),
    {
        self.lemma_points_parts();
        lemma_parts_points_sorted(self.parts(), self.partition_size);
    }

    /// A series' map is the map of a well-formed series.
    pub proof fn lemma_is_series_map(&self)
        requires
            self.wf(),
        ensures
            is_series_map(self@, self.partition_size_spec()),
            self.partition_size_spec() >= 1,
    {
        assert(parts_wf(self.parts(), self.partition_size) && parts_map(self.parts()) == self@);
    }

    /// Half-open ranges tile a series: the points of `[a, b)` followed by
    /// those of `[b, c)` are the points of `[a, c)`.
    pub proof fn lemma_ranges_tile(&self, a: int, b: int, c: int)
        requires
            self.wf(),
            a <= b <= c,
        ensures
            self.points().filter(in_range(a, b)) + self.points().filter(in_range(b, c)) == self.points().filter(
                in_range(a, c),
            ),
    {
        self.lemma_points_sorted();
        crate::point::lemma_ranges_tile(self.points(), a, b, c);
    }

    /// The number of points in the series.
    pub fn point_count(&self) -> (r: usize)
        requires
            self.wf(),
            self.points().len() <= usize::MAX,
        ensures
            r == self.points().len(),
    {
        let ghost ps = self.parts();
        proof {
            self.lemma_points_parts();
        }
        let mut total: usize = 0;
        let mut i: usize = 0;
        while i < self.partitions.len()
            invariant
                i <= ps.len(),
                ps == self.parts(),
                ps.len() == self.partitions@.len(),
                parts_points(ps).len() <= usize::MAX,
                total == parts_points(ps.take(i as int)).len(),
            decreases ps.len() - i,
        {
            proof {
                assert(ps.take(i + 1) =~= ps.take(i as int).push(ps[i as int]));
                lemma_parts_points_push(ps.take(i as int), ps[i as int]);
                assert(ps =~= ps.take(i + 1) + ps.skip(i + 1));
                lemma_parts_points_concat(ps.take(i + 1), ps.skip(i + 1));
                assert(ps[i as int].1 == self.partitions@[i as int]@);
            }
            total = total + self.partitions[i].len();
            i = i + 1;
        }
        assert(ps.take(i as int) =~= ps);
        total
    }

    /// Whether the series holds no point.
    pub fn is_empty(&self) -> (r: bool)
        requires
            self.wf(),
        ensures
            r == (self.points().len() == 0),
    {
        proof {
            self.lemma_points_parts();
            let ps = self.parts();
            if ps.len() > 0 {
                assert(ps =~= seq![ps[0]] + ps.skip(1));
                lemma_parts_points_concat(seq![ps[0]], ps.skip(1));
                lemma_parts_points_single(ps[0]);
            } else {
                assert(parts_points(ps) =~= Seq::<DataPoint<V>>::empty());
            }
        }
        self.partitions.len() == 0
    }

    /// Collects all points in the half-open range `[from, to)`, in ascending
    /// timestamp order.
    pub fn range(&self, from: Timestamp, to: Timestamp) -> (r: Vec<DataPoint<V>>)
        requires
            self.wf(),
        ensures
            r@ == self.points().filter(in_range(from as int, to as int)),
            sorted_by_time(r@),
    {
        let ghost ps = self.parts();
        let ghost f = in_range::<V>(from as int, to as int);
        proof {
            self.lemma_points_parts();
            self.lemma_points_sorted();
            crate::point::lemma_filter_sorted(self.points(), f);
        }
        if from >= to {
            proof {
                assert forall|i: int, j: int| 0 <= i < ps.len() && 0 <= j < ps[i].1.len() implies !f(
                    #[trigger] ps[i].1[j],
                ) by {}
                lemma_parts_points_filter_none(ps, f);
            }
            return Vec::new();
        }
        let aligned_from = self.partition_start(from);
        let lo = self.lower_bound(aligned_from);
        let hi = self.lower_bound(to);
        proof {
            lemma_aligned_start_bounds(from as int, self.partition_size as int);
            if lo > hi {
                assert(ps[hi as int].0 >= to);
                assert(ps[hi as int].0 < aligned_from);
            }
        }
        let mut out: Vec<DataPoint<V>> = Vec::new();
        let mut i: usize = lo;
        while i < hi
            invariant
                lo <= i <= hi <= ps.len(),
                ps == self.parts(),
                ps.len() == self.partitions@.len(),
                self.wf(),
                from < to,
                f == in_range::<V>(from as int, to as int),
                out@ == parts_points(ps.subrange(lo as int, i as int)).filter(f),
            decreases hi - i,
        {
            assert(self.partitions@[i as int].wf());
            let slice = self.partitions[i].range(from, to);
            let ghost before = out@;
            let mut j: usize = 0;
            while j < slice.len()
                invariant
                    j <= slice@.len(),
                    out@ == before + slice@.take(j as int),
                decreases slice@.len() - j,
            {
                out.push(slice[j]);
                proof {
                    assert(slice@.take(j + 1) =~= slice@.take(j as int).push(slice@[j as int]));
                }
                j = j + 1;
            }
            proof {
                assert(slice@.take(j as int) =~= slice@);
                assert(ps[i as int].1 == self.partitions@[i as int]@);
                let sub = ps.subrange(lo as int, i as int);
                assert(ps.subrange(lo as int, i + 1) =~= sub.push(ps[i as int]));
                lemma_parts_points_push(sub, ps[i as int]);
                Seq::filter_distributes_over_add(parts_points(sub), ps[i as int].1, f);
            }
            i = i + 1;
        }
        proof {
            let a = ps.subrange(0, lo as int);
            let b = ps.subrange(lo as int, hi as int);
            let c = ps.subrange(hi as int, ps.len() as int);
            assert(ps =~= a + b + c);
            lemma_parts_points_concat(a + b, c);
            lemma_parts_points_concat(a, b);
            Seq::filter_distributes_over_add(parts_points(a) + parts_points(b), parts_points(c), f);
            Seq::filter_distributes_over_add(parts_points(a), parts_points(b), f);
            assert forall|i: int, j: int| 0 <= i < a.len() && 0 <= j < a[i].1.len() implies !f(
                #[trigger] a[i].1[j],
            ) by {
                assert(a[i] == ps[i]);
                let t = a[i].1[j].timestamp;
                assert(aligned_start(t as int, self.partition_size as int) == ps[i].0);
                if t >= from {
                    lemma_aligned_start_monotonic(from as int, t as int, self.partition_size as int);
                }
            }
            lemma_parts_points_filter_none(a, f);
            assert forall|i: int, j: int| 0 <= i < c.len() && 0 <= j < c[i].1.len() implies !f(
                #[trigger] c[i].1[j],
            ) by {
                assert(c[i] == ps[hi + i]);
                let t = c[i].1[j].timestamp;
                lemma_aligned_start_bounds(t as int, self.partition_size as int);
            }
            lemma_parts_points_filter_none(c, f);
            assert(parts_points(ps).filter(f) =~= out@);
        }
        out
    }

    /// Drops partitions that lie entirely before `cutoff`. Returns how many were
    /// removed.
    pub fn retain(&mut self, cutoff: Timestamp) -> (r: usize)
        requires
            old(self).wf(),
        ensures
            final(self).wf(),
            final(self).partition_size_spec() == old(self).partition_size_spec(),
            final(self).parts() == old(self).parts().filter(
                |e: (u64, Seq<DataPoint<V>>)| !is_expired_spec(e.0, old(self).partition_size_spec(), cutoff),
            ),
            final(self)@ == retain_series(old(self)@, old(self).partition_size_spec(), cutoff),
            r == old(self).parts().len() - final(self).parts().len(),
            r == old(self)@.dom().len() - final(self)@.dom().len(),
    {
        let size = self.partition_size;
        let ghost ps = self.parts();
        let mut k: usize = 0;
        while k < self.partitions.len() && is_expired(self.partitions[k].start(), size, cutoff)
            invariant
                k <= ps.len(),
                ps == self.parts(),
                ps.len() == self.partitions@.len(),
                forall|i: int| 0 <= i < k ==> is_expired_spec((#[trigger] ps[i]).0, size, cutoff),
            decreases ps.len() - k,
        {
            assert(ps[k as int].0 == self.partitions@[k as int].start_spec());
            k = k + 1;
        }
        proof {
            if k < ps.len() {
                assert(ps[k as int].0 == self.partitions@[k as int].start_spec());
            }
            lemma_expired_prefix(ps, k as int, size, cutoff);
        }
        let ghost old_parts = self.partitions@;
        let rest = self.partitions.split_off(k);
        self.partitions = rest;
        proof {
            assert(self.partitions@ =~= old_parts.subrange(k as int, old_parts.len() as int));
            assert(self.parts() =~= ps.subrange(k as int, ps.len() as int));
            assert forall|i: int| 0 <= i < self.partitions@.len() implies {
                &&& (#[trigger] self.partitions@[i]).wf()
                &&& self.partitions@[i].size_spec() == self.partition_size
            } by {
                assert(self.partitions@[i] == old_parts[k + i]);
            }
            self.lemma_dom_len();
            old(self).lemma_dom_len();
        }
        k
    }
}

impl<V: Copy> View for Series<V> {
    type V = Map<u64, Seq<DataPoint<V>>>;

    /// The series as a map from partition start to that partition's points.
    closed spec fn view(&self) -> Map<u64, Seq<DataPoint<V>>> {
        parts_map(self.parts())
    }
}

} // verus!
