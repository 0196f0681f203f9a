//! The fundamental data types.
use vstd::prelude::*;
use vstd::arithmetic::div_mod::{
    lemma_div_is_ordered, lemma_div_pos_is_pos, lemma_fundamental_div_mod, lemma_mod_multiples_basic,
};
use vstd::arithmetic::mul::{lemma_mul_inequality, lemma_mul_is_commutative};

verus! {

/// A point's timestamp, in abstract integer ticks (caller chooses the unit).
pub type Timestamp = u64;

/// A series identifier (e.g. a metric name).
pub type SeriesKey = String;

/// A single timestamped measurement within a series. The measured value is
/// carried through the engine untouched; only its timestamp is interpreted.
#[derive(Debug, Clone, Copy, PartialEq)]
pub struct DataPoint<V> {
    pub timestamp: Timestamp,
    pub value: V,
}

impl<V> DataPoint<V> {
    /// A point measured at `timestamp`.
    pub fn new(timestamp: Timestamp, value: V) -> (r: Self)
        ensures
            r.timestamp == timestamp,
            r.value == value,
    {
        DataPoint { timestamp, value }
    }
}

/// The start of the width-`w` bucket, aligned to absolute time, that holds
/// tick `t`: `(t / w) * w`.
pub open spec fn aligned_start(t: int, w: int) -> int {
    (t / w) * w
}

/// A tick lies in the bucket `[aligned_start, aligned_start + w)`, and the
/// bucket start is a multiple of `w`.
pub proof fn lemma_aligned_start_bounds(t: int, w: int)
    requires
        0 <= t,
        0 < w,
    ensures
        0 <= aligned_start(t, w) <= t < aligned_start(t, w) + w,
        aligned_start(t, w) % w == 0,
{
    lemma_fundamental_div_mod(t, w);
    lemma_mul_is_commutative(t / w, w);
    lemma_div_pos_is_pos(t, w);
    lemma_mod_multiples_basic(t / w, w);
    assert(0 <= (t / w) * w) by (nonlinear_arith)
        requires
            0 <= t / w,
            0 < w,
    ;
}

/// Buckets are ordered as their ticks are.
pub proof fn lemma_aligned_start_monotonic(a: int, b: int, w: int)
    requires
        0 <= a <= b,
        0 < w,
    ensures
        aligned_start(a, w) <= aligned_start(b, w),
{
    lemma_div_is_ordered(a, b, w);
    lemma_mul_inequality(a / w, b / w, w);
}

/// A tick lies in the bucket `[s, s + w)` of an aligned `s` exactly when its
/// aligned start is `s`: the buckets tile the timeline with no gap and no
/// overlap.
pub proof fn lemma_aligned_start_unique(t: int, s: int, w: int)
    requires
        0 <= t,
        0 <= s,
        0 < w,
        s % w == 0,
    ensures
        (s <= t < s + w) <==> aligned_start(t, w) == s,
{
    lemma_aligned_start_bounds(t, w);
    lemma_fundamental_div_mod(s, w);
    lemma_mul_is_commutative(s / w, w);
    let q = t / w;
    let k = s / w;
    assert(s == k * w);
    if s <= t < s + w {
        // k * w <= t < (k + 1) * w forces t / w == k.
        assert(aligned_start(t, w) == q * w);
        if q < k {
            lemma_mul_inequality(q + 1, k, w);
            assert((q + 1) * w == q * w + w) by (nonlinear_arith);
        } else if q > k {
            lemma_mul_inequality(k + 1, q, w);
            assert((k + 1) * w == k * w + w) by (nonlinear_arith);
        }
    }
}

/// A point on a bucket boundary belongs to the bucket that starts there: the
/// upper one.
pub proof fn lemma_boundary_in_upper_bucket(t: int, w: int)
    requires
        0 <= t,
        0 < w,
        t % w == 0,
    ensures
        aligned_start(t, w) == t,
{
    lemma_aligned_start_unique(t, t, w);
}

/// Points ordered by non-decreasing timestamp.
pub open spec fn sorted_by_time<V>(s: Seq<DataPoint<V>>) -> bool {
    forall|i: int, j: int| 0 <= i <= j < s.len() ==> s[i].timestamp <= s[j].timestamp
}

/// Whether a point's timestamp lies in the half-open range `[from, to)`.
pub open spec fn in_range<V>(from: int, to: int) -> spec_fn(DataPoint<V>) -> bool {
    |p: DataPoint<V>| from <= p.timestamp && p.timestamp < to
}

/// Whether a point's timestamp is at or before `t`.
pub open spec fn at_or_before<V>(t: int) -> spec_fn(DataPoint<V>) -> bool {
    |p: DataPoint<V>| p.timestamp <= t
}

/// The position at which a stable sorted insertion of a point stamped `t`
/// lands: after every point stamped at or before `t`.
pub open spec fn insert_position<V>(s: Seq<DataPoint<V>>, t: int) -> int {
    s.filter(at_or_before(t)).len() as int
}

/// `s` with `p` inserted after every point whose timestamp is at or before
/// `p.timestamp` (so equal timestamps keep insertion order).
pub open spec fn insert_sorted<V>(s: Seq<DataPoint<V>>, p: DataPoint<V>) -> Seq<DataPoint<V>> {
    s.insert(insert_position(s, p.timestamp as int), p)
}

/// A filter that keeps every element is the identity.
pub proof fn lemma_filter_keeps_all<A>(s: Seq<A>, pred: spec_fn(A) -> bool)
    requires
        forall|i: int| 0 <= i < s.len() ==> pred(#[trigger] s[i]),
    ensures
        s.filter(pred) == s,
    decreases s.len(),
{
    reveal(Seq::filter);
    if s.len() > 0 {
        lemma_filter_keeps_all(s.drop_last(), pred);
        assert(s.drop_last().push(s.last()) =~= s);
    }
}

/// A filter that rejects a prefix and keeps the rest yields that rest.
pub proof fn lemma_filter_split<A>(s: Seq<A>, k: int, keep: spec_fn(A) -> bool)
    requires
        0 <= k <= s.len(),
        forall|i: int| 0 <= i < k ==> !keep(#[trigger] s[i]),
        forall|i: int| k <= i < s.len() ==> keep(#[trigger] s[i]),
    ensures
        s.filter(keep) == s.subrange(k, s.len() as int),
{
    let a = s.subrange(0, k);
    let b = s.subrange(k, s.len() as int);
    assert(s =~= a + b);
    Seq::filter_distributes_over_add(a, b, keep);
    assert forall|i: int| 0 <= i < a.len() implies !keep(#[trigger] a[i]) by {
        assert(a[i] == s[i]);
    }
    lemma_filter_keeps_none(a, keep);
    assert forall|i: int| 0 <= i < b.len() implies keep(#[trigger] b[i]) by {
        assert(b[i] == s[k + i]);
    }
    lemma_filter_keeps_all(b, keep);
    assert(s.filter(keep) =~= b);
}

/// A filter that keeps no element yields the empty sequence.
pub proof fn lemma_filter_keeps_none<A>(s: Seq<A>, pred: spec_fn(A) -> bool)
    requires
        forall|i: int| 0 <= i < s.len() ==> !pred(#[trigger] s[i]),
    ensures
        s.filter(pred) == Seq::<A>::empty(),
    decreases s.len(),
{
    reveal(Seq::filter);
    if s.len() > 0 {
        lemma_filter_keeps_none(s.drop_last(), pred);
    }
}

/// In a time-sorted sequence, the points of a time range form the contiguous
/// block between the first point at or after `from` and the first point at or
/// after `to`.
pub proof fn lemma_sorted_range_is_block<V>(s: Seq<DataPoint<V>>, lo: int, hi: int, from: int, to: int)
    requires
        0 <= lo <= hi <= s.len(),
        forall|i: int| 0 <= i < lo ==> (#[trigger] s[i]).timestamp < from,
        forall|i: int| lo <= i < hi ==> from <= (#[trigger] s[i]).timestamp < to,
        forall|i: int| hi <= i < s.len() ==> (#[trigger] s[i]).timestamp >= to,
    ensures
        s.filter(in_range(from, to)) == s.subrange(lo, hi),
{
    let a = s.subrange(0, lo);
    let b = s.subrange(lo, hi);
    let c = s.subrange(hi, s.len() as int);
    assert(s =~= a + b + c);
    let f = in_range::<V>(from, to);
    Seq::filter_distributes_over_add(a + b, c, f);
    Seq::filter_distributes_over_add(a, b, f);
    lemma_filter_keeps_none(a, f);
    lemma_filter_keeps_all(b, f);
    lemma_filter_keeps_none(c, f);
    assert(s.filter(f) =~= b);
}

/// Whether a point's timestamp is at or after `t`.
pub open spec fn at_or_after<V>(t: int) -> spec_fn(DataPoint<V>) -> bool {
    |p: DataPoint<V>| p.timestamp >= t
}

/// Half-open ranges tile the timeline: over time-sorted points, the points of
/// `[a, b)` followed by those of `[b, c)` are the points of `[a, c)`.
pub proof fn lemma_ranges_tile<V>(s: Seq<DataPoint<V>>, a: int, b: int, c: int)
    requires
        sorted_by_time(s),
        a <= b <= c,
    ensures
        s.filter(in_range(a, b)) + s.filter(in_range(b, c)) == s.filter(in_range(a, c)),
    decreases s.len(),
{
    reveal(Seq::filter);
    if s.len() == 0 {
        assert(s.filter(in_range::<V>(a, b)) + s.filter(in_range::<V>(b, c)) =~= s);
    } else {
        let t = s.drop_last();
        let x = s.last();
        assert(sorted_by_time(t));
        lemma_ranges_tile(t, a, b, c);
        let fab = in_range::<V>(a, b);
        let fbc = in_range::<V>(b, c);
        if fab(x) {
            // Every earlier point is at or before x, so before b.
            assert forall|i: int| 0 <= i < t.len() implies !fbc(#[trigger] t[i]) by {
                assert(s[i] == t[i]);
                assert(s[i].timestamp <= s[s.len() - 1].timestamp);
            }
            lemma_filter_keeps_none(t, fbc);
            assert(s.filter(fab) + s.filter(fbc) =~= s.filter(in_range(a, c)));
        } else {
            assert(s.filter(fab) + s.filter(fbc) =~= s.filter(in_range(a, c)));
        }
    }
}

/// Keeping some of the points of a time-sorted sequence keeps it sorted.
pub proof fn lemma_filter_sorted<V>(s: Seq<DataPoint<V>>, pred: spec_fn(DataPoint<V>) -> bool)
    requires
        sorted_by_time(s),
    ensures
        sorted_by_time(s.filter(pred)),
    decreases s.len(),
{
    reveal(Seq::filter);
    if s.len() > 0 {
        let t = s.drop_last();
        lemma_filter_sorted(t, pred);
        let ft = t.filter(pred);
        if pred(s.last()) {
            assert forall|k: int| 0 <= k < ft.len() implies (#[trigger] ft[k]).timestamp <= s.last().timestamp by {
                assert(ft.contains(ft[k]));
                t.lemma_filter_contains_rev(pred, ft[k]);
                let m = choose|m: int| 0 <= m < t.len() && t[m] == ft[k];
                assert(s[m] == t[m]);
            }
            let r = ft.push(s.last());
            assert forall|i: int, j: int| 0 <= i <= j < r.len() implies r[i].timestamp <= r[j].timestamp by {
                if j == r.len() - 1 && i < j {
                    assert(r[i] == ft[i]);
                }
            }
        }
    }
}

/// In a time-sorted sequence, the points stamped at or before `t` come first:
/// returns how many there are.
pub proof fn time_split<V>(s: Seq<DataPoint<V>>, t: int) -> (k: int)
    requires
        sorted_by_time(s),
    ensures
        0 <= k <= s.len(),
        forall|i: int| 0 <= i < k ==> (#[trigger] s[i]).timestamp <= t,
        forall|i: int| k <= i < s.len() ==> (#[trigger] s[i]).timestamp > t,
    decreases s.len(),
{
    if s.len() == 0 {
        0
    } else if s.last().timestamp <= t {
        assert forall|i: int| 0 <= i < s.len() implies (#[trigger] s[i]).timestamp <= t by {
            assert(s[i].timestamp <= s[s.len() - 1].timestamp);
        }
        s.len() as int
    } else {
        let t_ = s.drop_last();
        let k = time_split(t_, t);
        assert forall|i: int| 0 <= i < k implies (#[trigger] s[i]).timestamp <= t by {
            assert(s[i] == t_[i]);
        }
        assert forall|i: int| k <= i < s.len() implies (#[trigger] s[i]).timestamp > t by {
            if i < s.len() - 1 {
                assert(s[i] == t_[i]);
            }
        }
        k
    }
}

/// A stable sorted insertion keeps the points sorted and adds exactly the new
/// point.
pub proof fn lemma_insert_sorted<V>(s: Seq<DataPoint<V>>, p: DataPoint<V>)
    requires
        sorted_by_time(s),
    ensures
        sorted_by_time(insert_sorted(s, p)),
        insert_sorted(s, p).len() == s.len() + 1,
        insert_sorted(s, p).to_multiset() == s.to_multiset().insert(p),
        forall|j: int|
            0 <= j < insert_sorted(s, p).len() ==> #[trigger] insert_sorted(s, p)[j] == p || s.contains(
                insert_sorted(s, p)[j],
            ),
{
    let t = p.timestamp as int;
    let k = time_split(s, t);
    lemma_insert_position(s, k, t);
    let r = insert_sorted(s, p);
    assert(r == s.insert(k, p));
    vstd::seq_lib::to_multiset_insert(s, k, p);
    assert forall|i: int, j: int| 0 <= i <= j < r.len() implies r[i].timestamp <= r[j].timestamp by {
        if i < k && j > k {
            assert(r[j] == s[j - 1]);
        } else if i > k {
            assert(r[i] == s[i - 1]);
            assert(r[j] == s[j - 1]);
        } else if i == k && j > k {
            assert(r[j] == s[j - 1]);
        }
    }
    assert forall|j: int| 0 <= j < r.len() implies #[trigger] r[j] == p || s.contains(r[j]) by {
        if j < k {
            assert(r[j] == s[j]);
        } else if j > k {
            assert(r[j] == s[j - 1]);
        }
    }
}

/// Inserting into the middle block of three, where the first block is all
/// before the new point and the last all after it, inserts into that block.
pub proof fn lemma_insert_sorted_middle<V>(a: Seq<DataPoint<V>>, b: Seq<DataPoint<V>>, c: Seq<DataPoint<V>>, p: DataPoint<V>)
    requires
        forall|i: int| 0 <= i < a.len() ==> (#[trigger] a[i]).timestamp < p.timestamp,
        sorted_by_time(b),
        forall|i: int| 0 <= i < c.len() ==> (#[trigger] c[i]).timestamp > p.timestamp,
    ensures
        insert_sorted(a + b + c, p) == a + insert_sorted(b, p) + c,
{
    let t = p.timestamp as int;
    let q = time_split(b, t);
    lemma_insert_position(b, q, t);
    let x = a + b + c;
    let kk = a.len() + q;
    assert forall|i: int| 0 <= i < kk implies (#[trigger] x[i]).timestamp <= t by {
        if i < a.len() {
            assert(x[i] == a[i]);
        } else {
            assert(x[i] == b[i - a.len()]);
        }
    }
    assert forall|i: int| kk <= i < x.len() implies (#[trigger] x[i]).timestamp > t by {
        if i < a.len() + b.len() {
            assert(x[i] == b[i - a.len()]);
        } else {
            assert(x[i] == c[i - a.len() - b.len()]);
        }
    }
    lemma_insert_position(x, kk, t);
    assert(x.insert(kk, p) =~= a + b.insert(q, p) + c);
}

/// In a time-sorted sequence whose first `k` points are at or before `t` and
/// whose remaining points are after it, the stable insertion position of `t`
/// is `k`.
pub proof fn lemma_insert_position<V>(s: Seq<DataPoint<V>>, k: int, t: int)
    requires
        0 <= k <= s.len(),
        forall|i: int| 0 <= i < k ==> (#[trigger] s[i]).timestamp <= t,
        forall|i: int| k <= i < s.len() ==> (#[trigger] s[i]).timestamp > t,
    ensures
        insert_position(s, t) == k,
{
    let a = s.subrange(0, k);
    let c = s.subrange(k, s.len() as int);
    assert(s =~= a + c);
    let f = at_or_before::<V>(t);
    Seq::filter_distributes_over_add(a, c, f);
    lemma_filter_keeps_all(a, f);
    lemma_filter_keeps_none(c, f);
}

} // verus!
