//! Windowed grouping, the heart of the time-series query engine.
//!
//! Points are folded into fixed-size windows aligned to absolute time: a point
//! at timestamp `t` belongs to the window starting at `(t / window) * window`,
//! which spans the half-open interval `[start, start + window)`. A point lying
//! exactly on a boundary belongs to the *upper* window.
use vstd::prelude::*;

use crate::error::CoreError;
use crate::point::{DataPoint, Timestamp, aligned_start, in_range, lemma_aligned_start_bounds};

verus! {

/// The aggregation applied within each window.
#[derive(Debug, Clone, Copy, PartialEq, Eq, Structural)]
pub enum Aggregation {
    Min,
    Max,
    Sum,
    Avg,
    Count,
}

/// The points of one window: the window's aligned start and the values of the
/// points that fell in it, in input order.
#[derive(Debug, Clone)]
pub struct WindowGroup<V> {
    /// The window's aligned start timestamp.
    pub start: Timestamp,
    /// The values of the points in the window, in input order.
    pub values: Vec<V>,
}

impl<V> WindowGroup<V> {
    /// The window's start together with its values.
    pub open spec fn entry(&self) -> (u64, Seq<V>) {
        (self.start, self.values@)
    }

    /// How many points fell in this window.
    pub fn count(&self) -> (r: usize)
        ensures
            r == self.values@.len(),
    {
        self.values.len()
    }
}

/// The window groups as (start, values) pairs.
pub open spec fn group_entries<V>(groups: Seq<WindowGroup<V>>) -> Seq<(u64, Seq<V>)> {
    groups.map_values(|g: WindowGroup<V>| g.entry())
}

/// Whether a point falls in the width-`w` window that starts at `s`.
pub open spec fn in_window<V>(w: int, s: int) -> spec_fn(DataPoint<V>) -> bool {
    |p: DataPoint<V>| aligned_start(p.timestamp as int, w) == s
}

/// The values, in input order, of the points in the width-`w` window at `s`.
pub open spec fn window_values<V>(points: Seq<DataPoint<V>>, w: int, s: int) -> Seq<V> {
    points.filter(in_window(w, s)).map_values(|p: DataPoint<V>| p.value)
}

/// `groups` is the windowing of `points` with width `w`: one group per window
/// holding at least one point, in ascending order of window start, each with
/// the values of exactly the points in its window.
pub open spec fn is_window_grouping<V>(points: Seq<DataPoint<V>>, w: int, groups: Seq<(u64, Seq<V>)>) -> bool {
    &&& forall|i: int, j: int| 0 <= i < j < groups.len() ==> groups[i].0 < groups[j].0
    &&& forall|i: int|
        0 <= i < groups.len() ==> {
            &&& (#[trigger] groups[i]).1.len() > 0
            &&& groups[i].1 == window_values(points, w, groups[i].0 as int)
        }
    &&& forall|k: int|
        0 <= k < points.len() ==> has_window(groups, aligned_start((#[trigger] points[k]).timestamp as int, w))
}

/// Whether some group starts at `s`.
pub open spec fn has_window<V>(groups: Seq<(u64, Seq<V>)>, s: int) -> bool {
    exists|i: int| 0 <= i < groups.len() && groups[i].0 == s
}

/// Adding one point to the input adds its value to its own window only.
proof fn lemma_window_values_push<V>(points: Seq<DataPoint<V>>, p: DataPoint<V>, w: int, s: int)
    ensures
        window_values(points.push(p), w, s) == if aligned_start(p.timestamp as int, w) == s {
            window_values(points, w, s).push(p.value)
        } else {
            window_values(points, w, s)
        },
{
    points.lemma_filter_push(p, in_window(w, s));
    let f = |q: DataPoint<V>| q.value;
    let base = points.filter(in_window(w, s));
    assert(base.push(p).map_values(f) =~= base.map_values(f).push(p.value));
}

/// The values of a window no point falls in are empty.
proof fn lemma_window_values_empty<V>(points: Seq<DataPoint<V>>, w: int, s: int)
    requires
        forall|k: int| 0 <= k < points.len() ==> aligned_start((#[trigger] points[k]).timestamp as int, w) != s,
    ensures
        window_values(points, w, s) == Seq::<V>::empty(),
{
    crate::point::lemma_filter_keeps_none(points, in_window::<V>(w, s));
    assert(window_values(points, w, s) =~= Seq::<V>::empty());
}

/// The windowing of a sequence of points is unique: the contract of
/// [`group_windows`] leaves it exactly one result.
pub proof fn lemma_window_grouping_unique<V>(
    points: Seq<DataPoint<V>>,
    w: int,
    g1: Seq<(u64, Seq<V>)>,
    g2: Seq<(u64, Seq<V>)>,
)
    requires
        is_window_grouping(points, w, g1),
        is_window_grouping(points, w, g2),
    ensures
        g1 == g2,
    decreases g1.len() + g2.len(),
{
    // Each group start is the window of one of the points (its values are
    // non-empty), so the two start lists hold the same starts.
    assert forall|i: int| 0 <= i < g1.len() implies has_window(g2, (#[trigger] g1[i]).0 as int) by {
        lemma_group_start_is_covered(points, w, g1, i);
    }
    assert forall|i: int| 0 <= i < g2.len() implies has_window(g1, (#[trigger] g2[i]).0 as int) by {
        lemma_group_start_is_covered(points, w, g2, i);
    }
    lemma_ascending_starts_equal(g1, g2);
    assert forall|i: int| 0 <= i < g1.len() implies g1[i] == g2[i] by {
        assert(g1[i].1 == window_values(points, w, g1[i].0 as int));
        assert(g2[i].1 == window_values(points, w, g2[i].0 as int));
    }
    assert(g1 =~= g2);
}

/// A group's start is the window of some point, so every grouping of the same
/// points has a group there.
proof fn lemma_group_start_is_covered<V>(points: Seq<DataPoint<V>>, w: int, g: Seq<(u64, Seq<V>)>, i: int)
    requires
        is_window_grouping(points, w, g),
        0 <= i < g.len(),
    ensures
        exists|k: int| 0 <= k < points.len() && aligned_start(points[k].timestamp as int, w) == g[i].0,
{
    let f = in_window::<V>(w, g[i].0 as int);
    let kept = points.filter(f);
    assert(kept.map_values(|p: DataPoint<V>| p.value).len() > 0);
    assert(kept.len() > 0);
    points.lemma_filter_pred(f, 0);
    assert(kept.contains(kept[0]));
    points.lemma_filter_contains_rev(f, kept[0]);
    let k = choose|k: int| 0 <= k < points.len() && points[k] == kept[0];
    assert(aligned_start(points[k].timestamp as int, w) == g[i].0);
}

/// Two strictly ascending start lists that hold the same starts are equal,
/// position by position.
proof fn lemma_ascending_starts_equal<V>(g1: Seq<(u64, Seq<V>)>, g2: Seq<(u64, Seq<V>)>)
    requires
        forall|i: int, j: int| 0 <= i < j < g1.len() ==> g1[i].0 < g1[j].0,
        forall|i: int, j: int| 0 <= i < j < g2.len() ==> g2[i].0 < g2[j].0,
        forall|i: int| 0 <= i < g1.len() ==> has_window(g2, (#[trigger] g1[i]).0 as int),
        forall|i: int| 0 <= i < g2.len() ==> has_window(g1, (#[trigger] g2[i]).0 as int),
    ensures
        g1.len() == g2.len(),
        forall|i: int| 0 <= i < g1.len() ==> (#[trigger] g1[i]).0 == g2[i].0,
    decreases g1.len() + g2.len(),
{
    if g1.len() > 0 && g2.len() > 0 {
        let n1 = g1.len() - 1;
        let n2 = g2.len() - 1;
        // The last starts are both the largest start.
        assert(has_window(g2, g1[n1].0 as int));
        let j = choose|j: int| 0 <= j < g2.len() && g2[j].0 == g1[n1].0;
        assert(has_window(g1, g2[n2].0 as int));
        let i = choose|i: int| 0 <= i < g1.len() && g1[i].0 == g2[n2].0;
        if j < n2 {
            assert(g2[j].0 < g2[n2].0);
        }
        if i < n1 {
            assert(g1[i].0 < g1[n1].0);
        }
        assert(g1[n1].0 == g2[n2].0);
        let d1 = g1.drop_last();
        let d2 = g2.drop_last();
        assert forall|a: int| 0 <= a < d1.len() implies has_window(d2, (#[trigger] d1[a]).0 as int) by {
            assert(d1[a] == g1[a]);
            assert(has_window(g2, g1[a].0 as int));
            let b = choose|b: int| 0 <= b < g2.len() && g2[b].0 == g1[a].0;
            assert(g1[a].0 < g1[n1].0);
            assert(b != n2);
            assert(d2[b] == g2[b]);
        }
        assert forall|a: int| 0 <= a < d2.len() implies has_window(d1, (#[trigger] d2[a]).0 as int) by {
            assert(d2[a] == g2[a]);
            assert(has_window(g1, g2[a].0 as int));
            let b = choose|b: int| 0 <= b < g1.len() && g1[b].0 == g2[a].0;
            assert(g2[a].0 < g2[n2].0);
            assert(b != n1);
            assert(d1[b] == g1[b]);
        }
        lemma_ascending_starts_equal(d1, d2);
        assert forall|a: int| 0 <= a < g1.len() implies (#[trigger] g1[a]).0 == g2[a].0 by {
            if a < n1 {
                assert(d1[a] == g1[a] && d2[a] == g2[a]);
            }
        }
    } else if g1.len() > 0 {
        assert(has_window(g2, g1[0].0 as int));
    } else if g2.len() > 0 {
        assert(has_window(g1, g2[0].0 as int));
    }
}

/// Windows are aligned to absolute time, so queries over different ranges
/// agree on every window that both ranges cover whole: the window's values do
/// not depend on where the query starts or ends.
pub proof fn lemma_overlapping_queries_agree<V>(
    points: Seq<DataPoint<V>>,
    from1: int,
    to1: int,
    from2: int,
    to2: int,
    w: int,
    s: int,
)
    requires
        0 < w,
        0 <= s,
        s % w == 0,
        from1 <= s,
        s + w <= to1,
        from2 <= s,
        s + w <= to2,
    ensures
        window_values(points.filter(in_range(from1, to1)), w, s) == window_values(
            points.filter(in_range(from2, to2)),
            w,
            s,
        ),
{
    lemma_window_within_range(points, from1, to1, w, s);
    lemma_window_within_range(points, from2, to2, w, s);
}

/// The values of a window that a range covers whole are those of the window
/// over all points.
proof fn lemma_window_within_range<V>(points: Seq<DataPoint<V>>, from: int, to: int, w: int, s: int)
    requires
        0 < w,
        0 <= s,
        s % w == 0,
        from <= s,
        s + w <= to,
    ensures
        window_values(points.filter(in_range(from, to)), w, s) == window_values(points, w, s),
    decreases points.len(),
{
    reveal(Seq::filter);
    if points.len() > 0 {
        let t = points.drop_last();
        let x = points.last();
        lemma_window_within_range(t, from, to, w, s);
        crate::point::lemma_aligned_start_unique(x.timestamp as int, s, w);
        lemma_window_values_push(t, x, w, s);
        lemma_window_values_push(t.filter(in_range(from, to)), x, w, s);
        assert(t.push(x) =~= points);
        t.lemma_filter_push(x, in_range::<V>(from, to));
    }
}

/// A group's start is a window start: aligned, and not negative.
proof fn lemma_group_start_aligned<V>(points: Seq<DataPoint<V>>, w: int, g: Seq<(u64, Seq<V>)>, i: int)
    requires
        0 < w,
        is_window_grouping(points, w, g),
        0 <= i < g.len(),
    ensures
        (g[i].0 as int) % w == 0,
{
    lemma_group_start_is_covered(points, w, g, i);
    let k = choose|k: int| 0 <= k < points.len() && aligned_start(points[k].timestamp as int, w) == g[i].0;
    lemma_aligned_start_bounds(points[k].timestamp as int, w);
}

/// A window starting at or after both starts of two ranges with the same end
/// holds the same values in both.
proof fn lemma_window_from_later<V>(points: Seq<DataPoint<V>>, f1: int, f2: int, t: int, w: int, s: int)
    requires
        0 < w,
        0 <= s,
        s % w == 0,
        f1 <= f2 <= s,
    ensures
        window_values(points.filter(in_range(f1, t)), w, s) == window_values(points.filter(in_range(f2, t)), w, s),
    decreases points.len(),
{
    reveal(Seq::filter);
    if points.len() > 0 {
        let d = points.drop_last();
        let x = points.last();
        lemma_window_from_later(d, f1, f2, t, w, s);
        crate::point::lemma_aligned_start_unique(x.timestamp as int, s, w);
        lemma_window_values_push(d.filter(in_range(f1, t)), x, w, s);
        lemma_window_values_push(d.filter(in_range(f2, t)), x, w, s);
        assert(d.push(x) =~= points);
        d.lemma_filter_push(x, in_range::<V>(f1, t));
        d.lemma_filter_push(x, in_range::<V>(f2, t));
    }
}

/// Windows are aligned to absolute time: moving a query's start later, to a
/// window boundary, keeps exactly the windows of the first query that start
/// at or after it, with the same values.
pub proof fn lemma_later_start_keeps_later_windows<V>(
    points: Seq<DataPoint<V>>,
    f1: int,
    f2: int,
    t: int,
    w: int,
    g1: Seq<(u64, Seq<V>)>,
    g2: Seq<(u64, Seq<V>)>,
)
    requires
        0 < w,
        0 <= f1 <= f2,
        f2 % w == 0,
        is_window_grouping(points.filter(in_range(f1, t)), w, g1),
        is_window_grouping(points.filter(in_range(f2, t)), w, g2),
    ensures
        g2 == g1.filter(|e: (u64, Seq<V>)| e.0 >= f2),
{
    let p1 = points.filter(in_range::<V>(f1, t));
    let p2 = points.filter(in_range::<V>(f2, t));
    let keep = |e: (u64, Seq<V>)| e.0 >= f2;
    let j = first_at_or_after(g1, f2);
    let h = g1.subrange(j, g1.len() as int);
    assert forall|i: int| 0 <= i < j implies !keep(#[trigger] g1[i]) by {}
    assert forall|i: int| j <= i < g1.len() implies keep(#[trigger] g1[i]) by {}
    crate::point::lemma_filter_split(g1, j, keep);
    // The suffix is the windowing of the later query.
    assert forall|i: int| 0 <= i < h.len() implies {
        &&& (#[trigger] h[i]).1.len() > 0
        &&& h[i].1 == window_values(p2, w, h[i].0 as int)
    } by {
        assert(h[i] == g1[j + i]);
        lemma_group_start_aligned(p1, w, g1, j + i);
        lemma_window_from_later(points, f1, f2, t, w, g1[j + i].0 as int);
    }
    assert forall|k: int| 0 <= k < p2.len() implies has_window(
        h,
        aligned_start((#[trigger] p2[k]).timestamp as int, w),
    ) by {
        let x = p2[k];
        assert(p2.contains(x));
        points.lemma_filter_contains_rev(in_range::<V>(f2, t), x);
        points.lemma_filter_pred(in_range::<V>(f2, t), k);
        let m = choose|m: int| 0 <= m < points.len() && points[m] == x;
        points.lemma_filter_contains(in_range::<V>(f1, t), m);
        let k1 = choose|k1: int| 0 <= k1 < p1.len() && p1[k1] == x;
        assert(has_window(g1, aligned_start(p1[k1].timestamp as int, w)));
        let i = choose|i: int| 0 <= i < g1.len() && g1[i].0 == aligned_start(x.timestamp as int, w);
        crate::point::lemma_aligned_start_monotonic(f2, x.timestamp as int, w);
        crate::point::lemma_boundary_in_upper_bucket(f2, w);
        assert(g1[i].0 >= f2);
        assert(i >= j);
        assert(h[i - j] == g1[i]);
    }
    assert(is_window_grouping(p2, w, h));
    lemma_window_grouping_unique(p2, w, g2, h);
}

/// The index of the first group starting at or after `s`.
proof fn first_at_or_after<V>(g: Seq<(u64, Seq<V>)>, s: int) -> (j: int)
    requires
        forall|a: int, b: int| 0 <= a < b < g.len() ==> g[a].0 < g[b].0,
    ensures
        0 <= j <= g.len(),
        forall|i: int| 0 <= i < j ==> (#[trigger] g[i]).0 < s,
        forall|i: int| j <= i < g.len() ==> (#[trigger] g[i]).0 >= s,
    decreases g.len(),
{
    if g.len() == 0 || g.last().0 < s {
        assert forall|i: int| 0 <= i < g.len() implies (#[trigger] g[i]).0 < s by {
            if i < g.len() - 1 {
                assert(g[i].0 < g[g.len() - 1].0);
            }
        }
        g.len() as int
    } else {
        let d = g.drop_last();
        let j = first_at_or_after(d, s);
        assert forall|i: int| 0 <= i < j implies (#[trigger] g[i]).0 < s by {
            assert(g[i] == d[i]);
        }
        assert forall|i: int| j <= i < g.len() implies (#[trigger] g[i]).0 >= s by {
            if i < g.len() - 1 {
                assert(g[i] == d[i]);
            }
        }
        j
    }
}

/// Index of the first group whose start is at or after `s`.
fn lower_bound<V>(groups: &Vec<WindowGroup<V>>, s: u64) -> (k: usize)
    requires
        forall|i: int, j: int| 0 <= i < j < groups@.len() ==> groups@[i].start < groups@[j].start,
    ensures
        k <= groups@.len(),
        forall|i: int| 0 <= i < k ==> (#[trigger] groups@[i]).start < s,
        forall|i: int| k <= i < groups@.len() ==> (#[trigger] groups@[i]).start >= s,
{
    let mut lo: usize = 0;
    let mut hi: usize = groups.len();
    while lo < hi
        invariant
            lo <= hi <= groups@.len(),
            forall|i: int, j: int| 0 <= i < j < groups@.len() ==> groups@[i].start < groups@[j].start,
            forall|i: int| 0 <= i < lo ==> (#[trigger] groups@[i]).start < s,
            forall|i: int| hi <= i < groups@.len() ==> (#[trigger] groups@[i]).start >= s,
        decreases hi - lo,
    {
        let mid = lo + (hi - lo) / 2;
        if groups[mid].start < s {
            lo = mid + 1;
        } else {
            hi = mid;
        }
    }
    lo
}

/// Folds `points` into windows of size `window`: one group per window that
/// holds at least one point, in ascending order of window start, each holding
/// the values of its points in input order. Returns an error if `window` is
/// zero.
pub fn group_windows<V: Copy>(points: &[DataPoint<V>], window: u64) -> (r: Result<
    Vec<WindowGroup<V>>,
    CoreError,
>)
    ensures
        r is Err <==> window == 0,
        r matches Err(e) ==> e == CoreError::InvalidWindow,
        r matches Ok(groups) ==> is_window_grouping(points@, window as int, group_entries(groups@)),
{
    if window == 0 {
        return Err(CoreError::InvalidWindow);
    }
    let ghost w = window as int;
    let mut groups: Vec<WindowGroup<V>> = Vec::new();
    let mut i: usize = 0;
    proof {
        assert(group_entries(groups@) =~= Seq::<(u64, Seq<V>)>::empty());
    }
    while i < points.len()
        invariant
            i <= points@.len(),
            w == window as int,
            window > 0,
            is_window_grouping(points@.take(i as int), w, group_entries(groups@)),
            forall|a: int, b: int| 0 <= a < b < groups@.len() ==> groups@[a].start < groups@[b].start,
        decreases points@.len() - i,
    {
        let p = points[i];
        proof {
            lemma_aligned_start_bounds(p.timestamp as int, w);
        }
        let s = (p.timestamp / window) * window;
        let k = lower_bound(&groups, s);
        let ghost prev = points@.take(i as int);
        let ghost next = points@.take(i + 1);
        let ghost old_g = group_entries(groups@);
        proof {
            assert(next =~= prev.push(p));
        }
        if k < groups.len() && groups[k].start == s {
            groups[k].values.push(p.value);
            proof {
                let g = group_entries(groups@);
                assert(g =~= old_g.update(k as int, (s, old_g[k as int].1.push(p.value))));
                assert forall|j: int| 0 <= j < g.len() implies {
                    &&& (#[trigger] g[j]).1.len() > 0
                    &&& g[j].1 == window_values(next, w, g[j].0 as int)
                } by {
                    lemma_window_values_push(prev, p, w, g[j].0 as int);
                    if j != k {
                        assert(old_g[j].0 != s) by {
                            if j < k {
                                assert(groups@[j].start < s);
                            } else {
                                assert(groups@[k as int].start < groups@[j].start);
                            }
                        }
                    }
                }
                assert forall|m: int| 0 <= m < next.len() implies has_window(
                    g,
                    aligned_start((#[trigger] next[m]).timestamp as int, w),
                ) by {
                    if m < prev.len() {
                        assert(next[m] == prev[m]);
                        assert(has_window(old_g, aligned_start(prev[m].timestamp as int, w)));
                        let j = choose|j: int|
                            0 <= j < old_g.len() && old_g[j].0 == aligned_start(prev[m].timestamp as int, w);
                        assert(g[j].0 == old_g[j].0);
                    } else {
                        assert(g[k as int].0 == s);
                    }
                }
                assert forall|a: int, b: int| 0 <= a < b < g.len() implies g[a].0 < g[b].0 by {
                    assert(groups@[a].start == g[a].0 && groups@[b].start == g[b].0);
                }
                assert(is_window_grouping(next, w, g));
            }
        } else {
            let mut values: Vec<V> = Vec::new();
            values.push(p.value);
            groups.insert(k, WindowGroup { start: s, values });
            proof {
                let g = group_entries(groups@);
                assert(g =~= old_g.insert(k as int, (s, seq![p.value])));
                assert forall|m: int| 0 <= m < prev.len() implies aligned_start((#[trigger] prev[m]).timestamp as int, w)
                    != s by {
                    assert(has_window(old_g, aligned_start(prev[m].timestamp as int, w)));
                    let j = choose|j: int|
                        0 <= j < old_g.len() && old_g[j].0 == aligned_start(prev[m].timestamp as int, w);
                    if old_g[j].0 == s {
                        if j < k {
                            assert(groups@[j].start < s);
                        } else if j > k {
                            assert(old_g[k as int].0 < old_g[j].0);
                        }
                    }
                }
                lemma_window_values_empty(prev, w, s as int);
                assert(seq![p.value] =~= Seq::<V>::empty().push(p.value));
                assert forall|j: int| 0 <= j < g.len() implies {
                    &&& (#[trigger] g[j]).1.len() > 0
                    &&& g[j].1 == window_values(next, w, g[j].0 as int)
                } by {
                    lemma_window_values_push(prev, p, w, g[j].0 as int);
                    if j < k {
                        assert(g[j] == old_g[j]);
                        assert(groups@[j].start < s);
                    } else if j > k {
                        assert(g[j] == old_g[j - 1]);
                        assert(old_g[j - 1].0 != s) by {
                            if j - 1 == k {
                            } else {
                                assert(old_g[k as int].0 < old_g[j - 1].0);
                            }
                        }
                    }
                }
                assert forall|m: int| 0 <= m < next.len() implies has_window(
                    g,
                    aligned_start((#[trigger] next[m]).timestamp as int, w),
                ) by {
                    if m < prev.len() {
                        assert(next[m] == prev[m]);
                        assert(has_window(old_g, aligned_start(prev[m].timestamp as int, w)));
                        let j = choose|j: int|
                            0 <= j < old_g.len() && old_g[j].0 == aligned_start(prev[m].timestamp as int, w);
                        if j < k {
                            assert(g[j] == old_g[j]);
                        } else {
                            assert(g[j + 1] == old_g[j]);
                        }
                    } else {
                        assert(g[k as int].0 == s);
                    }
                }
                assert forall|a: int, b: int| 0 <= a < b < groups@.len() implies groups@[a].start
                    < groups@[b].start by {
                    assert(groups@[a].start == g[a].0 && groups@[b].start == g[b].0);
                    if b == k {
                        assert(old_g[a].0 < s);
                    } else if a == k {
                        if b - 1 == k {
                        } else {
                            assert(old_g[k as int].0 < old_g[b - 1].0);
                        }
                    }
                }
                assert forall|a: int, b: int| 0 <= a < b < g.len() implies g[a].0 < g[b].0 by {
                    assert(groups@[a].start == g[a].0 && groups@[b].start == g[b].0);
                }
                assert(is_window_grouping(next, w, g));
            }
        }
        i = i + 1;
    }
    proof {
        assert(points@.take(i as int) =~= points@);
    }
    Ok(groups)
}

} // verus!
