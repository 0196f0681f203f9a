//! A time-bucketed partition of points, kept sorted by timestamp.
use vstd::prelude::*;

use crate::point::{
    DataPoint, Timestamp, in_range, insert_sorted, lemma_insert_position, lemma_insert_sorted, lemma_sorted_range_is_block,
    sorted_by_time,
};

verus! {

/// A partition covering `[start, start + size)`, holding its points sorted by
/// timestamp for efficient range scans.
#[derive(Debug, Clone)]
pub struct Partition<V> {
    start: Timestamp,
    size: u64,
    points: Vec<DataPoint<V>>,
}

/// The number of leading points of a time-sorted sequence stamped strictly
/// before `t` (when `strict`) or at or before `t` (otherwise), found by binary
/// search.
fn partition_point<V: Copy>(points: &[DataPoint<V>], t: u64, strict: bool) -> (k: usize)
    requires
        sorted_by_time(points@),
    ensures
        k <= points@.len(),
        forall|i: int| 0 <= i < k ==> if strict {
            (#[trigger] points@[i]).timestamp < t
        } else {
            (#[trigger] points@[i]).timestamp <= t
        },
        forall|i: int| k <= i < points@.len() ==> if strict {
            (#[trigger] points@[i]).timestamp >= t
        } else {
            (#[trigger] points@[i]).timestamp > t
        },
{
    let mut lo: usize = 0;
    let mut hi: usize = points.len();
    while lo < hi
        invariant
            lo <= hi <= points@.len(),
            sorted_by_time(points@),
            forall|i: int| 0 <= i < lo ==> if strict {
                (#[trigger] points@[i]).timestamp < t
            } else {
                (#[trigger] points@[i]).timestamp <= t
            },
            forall|i: int| hi <= i < points@.len() ==> if strict {
                (#[trigger] points@[i]).timestamp >= t
            } else {
                (#[trigger] points@[i]).timestamp > t
            },
        decreases hi - lo,
    {
        let mid = lo + (hi - lo) / 2;
        let ts = points[mid].timestamp;
        let before = if strict { ts < t } else { ts <= t };
        if before {
            lo = mid + 1;
        } else {
            hi = mid;
        }
    }
    lo
}

impl<V: Copy> Partition<V> {
    /// The partition's points are sorted by timestamp.
    pub open spec fn wf(&self) -> bool {
        sorted_by_time(self@)
    }

    /// The first tick the partition covers.
    pub closed spec fn start_spec(&self) -> u64 {
        self.start
    }

    /// The width of the partition's time span.
    pub closed spec fn size_spec(&self) -> u64 {
        self.size
    }

    /// An empty partition covering `[start, start + size)`.
    pub fn new(start: Timestamp, size: u64) -> (r: Self)
        ensures
            r.wf(),
            r.start_spec() == start,
            r.size_spec() == size,
            r@ == Seq::<DataPoint<V>>::empty(),
    {
        Partition { start, size, points: Vec::new() }
    }

    /// The first tick the partition covers.
    pub fn start(&self) -> (r: Timestamp)
        ensures
            r == self.start_spec(),
    {
        self.start
    }

    /// The exclusive end of the partition's time span (saturating).
    pub fn end(&self) -> (r: Timestamp)
        ensures
            r == (if self.start_spec() + self.size_spec() <= u64::MAX {
                self.start_spec() + self.size_spec()
            } else {
                u64::MAX as int
            }),
    {
        self.start.saturating_add(self.size)
    }

    /// The number of points in the partition.
    pub fn len(&self) -> (r: usize)
        ensures
            r == self@.len(),
    {
        self.points.len()
    }

    /// Whether the partition holds no point.
    pub fn is_empty(&self) -> (r: bool)
        ensures
            r == (self@.len() == 0),
    {
        self.points.is_empty()
    }

    /// Inserts a point, preserving ascending timestamp order. Points with equal
    /// timestamps retain insertion order (stable).
    pub fn insert(&mut self, point: DataPoint<V>)
        requires
            old(self).wf(),
        ensures
            final(self).wf(),
            final(self)@ == insert_sorted(old(self)@, point),
            final(self).start_spec() == old(self).start_spec(),
            final(self).size_spec() == old(self).size_spec(),
    {
        let idx = partition_point(self.points.as_slice(), point.timestamp, false);
        proof {
            lemma_insert_position(self@, idx as int, point.timestamp as int);
            lemma_insert_sorted(self@, point);
        }
        self.points.insert(idx, point);
    }

    /// The points whose timestamps lie in the half-open range `[from, to)`, in
    /// ascending timestamp order.
    pub fn range(&self, from: Timestamp, to: Timestamp) -> (r: &[DataPoint<V>])
        requires
            self.wf(),
        ensures
            r@ == self@.filter(in_range(from as int, to as int)),
    {
        if from >= to {
            proof {
                crate::point::lemma_filter_keeps_none(self@, in_range::<V>(from as int, to as int));
            }
            return &self.points[0..0];
        }
        let lo = partition_point(self.points.as_slice(), from, true);
        let hi = partition_point(self.points.as_slice(), to, true);
        proof {
            if lo > hi {
                assert(self@[hi as int].timestamp >= to);
                assert(self@[hi as int].timestamp < from);
            }
            lemma_sorted_range_is_block(self@, lo as int, hi as int, from as int, to as int);
        }
        &self.points[lo..hi]
    }
}

impl<V> View for Partition<V> {
    type V = Seq<DataPoint<V>>;

    /// The partition's points, in storage order.
    closed spec fn view(&self) -> Seq<DataPoint<V>> {
        self.points@
    }
}

} // verus!
