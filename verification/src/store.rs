//! The multi-series store: ingest, query, and retention across all series.
use vstd::prelude::*;

use crate::aggregate::{WindowGroup, group_entries, group_windows, in_window, is_window_grouping, window_values};
use crate::error::CoreError;
use crate::key::{
    chars_equal, chars_less, chars_of, key_less, lemma_key_less_asymmetric, lemma_key_less_irreflexive,
    lemma_key_less_total, lemma_key_less_transitive,
};
use crate::point::{DataPoint, Timestamp, aligned_start, at_or_after, in_range, insert_sorted};
use crate::query::QuerySpec;
use crate::retention::{cutoff, cutoff_spec, is_expired_spec};
use crate::series::{
    Series, is_series_map, lemma_empty_is_series_map, lemma_retention_keeps_recent, lemma_series_insert_points,
    lemma_series_insert_sorted, map_points, retain_series, series_insert,
};
use crate::wal::WalRecord;

verus! {

/// The store after ingesting `p` into series `key`: the series, created empty
/// if absent, takes the point as [`series_insert`] says.
pub open spec fn store_ingest<V>(
    m: Map<Seq<char>, Map<u64, Seq<DataPoint<V>>>>,
    size: u64,
    key: Seq<char>,
    p: DataPoint<V>,
) -> Map<Seq<char>, Map<u64, Seq<DataPoint<V>>>> {
    let s = if m.dom().contains(key) {
        m[key]
    } else {
        Map::<u64, Seq<DataPoint<V>>>::empty()
    };
    m.insert(key, series_insert(s, size, p))
}

/// The store after retention at `cutoff`: every series keeps its unexpired
/// partitions; no series is removed.
pub open spec fn store_retain<V>(m: Map<Seq<char>, Map<u64, Seq<DataPoint<V>>>>, size: u64, cutoff: u64) -> Map<
    Seq<char>,
    Map<u64, Seq<DataPoint<V>>>,
> {
    Map::new(|k: Seq<char>| m.dom().contains(k), |k: Seq<char>| retain_series(m[k], size, cutoff))
}

/// The store rebuilt by ingesting `records` in order into an empty store of
/// width-`size` partitions.
pub open spec fn store_replay<V>(size: u64, records: Seq<WalRecord<V>>) -> Map<
    Seq<char>,
    Map<u64, Seq<DataPoint<V>>>,
>
    decreases records.len(),
{
    if records.len() == 0 {
        Map::empty()
    } else {
        let r = records.last();
        store_ingest(
            store_replay(size, records.drop_last()),
            size,
            r.series@,
            DataPoint { timestamp: r.timestamp, value: r.value },
        )
    }
}

/// The points of series `key` whose timestamps lie in `[from, to)`, in
/// ascending time order.
pub open spec fn series_range<V>(
    m: Map<Seq<char>, Map<u64, Seq<DataPoint<V>>>>,
    key: Seq<char>,
    from: int,
    to: int,
) -> Seq<DataPoint<V>> {
    map_points(m[key]).filter(in_range(from, to))
}

/// Keys strictly ascending in the key order.
pub open spec fn keys_sorted(keys: Seq<Seq<char>>) -> bool {
    forall|i: int, j: int| 0 <= i < j < keys.len() ==> key_less(keys[i], keys[j])
}

/// Whether some entry has key `k`.
pub open spec fn has_entry(keys: Seq<Seq<char>>, k: Seq<char>) -> bool {
    exists|i: int| 0 <= i < keys.len() && keys[i] == k
}

/// The position of key `k` in a key list that holds it.
pub open spec fn entry_index(keys: Seq<Seq<char>>, k: Seq<char>) -> int {
    choose|i: int| 0 <= i < keys.len() && keys[i] == k
}

/// The map of an association list with distinct keys.
pub open spec fn assoc_map<T>(keys: Seq<Seq<char>>, vals: Seq<T>) -> Map<Seq<char>, T> {
    Map::new(|k: Seq<char>| has_entry(keys, k), |k: Seq<char>| vals[entry_index(keys, k)])
}

/// The number of partitions of a list of series maps.
pub open spec fn partitions_total<V>(vals: Seq<Map<u64, Seq<DataPoint<V>>>>) -> int
    decreases vals.len(),
{
    if vals.len() == 0 {
        0
    } else {
        partitions_total(vals.drop_last()) + vals.last().dom().len()
    }
}

proof fn lemma_assoc_at<T>(keys: Seq<Seq<char>>, vals: Seq<T>, i: int)
    requires
        keys_sorted(keys),
        vals.len() == keys.len(),
        0 <= i < keys.len(),
    ensures
        assoc_map(keys, vals).dom().contains(keys[i]),
        assoc_map(keys, vals)[keys[i]] == vals[i],
{
    let k = keys[i];
    assert(has_entry(keys, k));
    let j = entry_index(keys, k);
    if j != i {
        if j < i {
            assert(key_less(keys[j], keys[i]));
        } else {
            assert(key_less(keys[i], keys[j]));
        }
        lemma_key_less_irreflexive(k);
    }
    assert(j == i);
}

proof fn lemma_assoc_ext<T>(keys: Seq<Seq<char>>, vals: Seq<T>, m: Map<Seq<char>, T>)
    requires
        keys_sorted(keys),
        vals.len() == keys.len(),
        forall|i: int| 0 <= i < keys.len() ==> m.dom().contains(#[trigger] keys[i]) && m[keys[i]] == vals[i],
        forall|k: Seq<char>| m.dom().contains(k) ==> has_entry(keys, k),
    ensures
        assoc_map(keys, vals) == m,
{
    assert forall|k: Seq<char>| #[trigger] assoc_map(keys, vals).dom().contains(k) <==> m.dom().contains(k) by {
        if m.dom().contains(k) {
            assert(has_entry(keys, k));
        }
        if assoc_map(keys, vals).dom().contains(k) {
            let i = choose|i: int| 0 <= i < keys.len() && keys[i] == k;
            assert(m.dom().contains(keys[i]));
        }
    }
    assert forall|k: Seq<char>| #[trigger] m.dom().contains(k) implies assoc_map(keys, vals)[k] == m[k] by {
        assert(has_entry(keys, k));
        let i = choose|i: int| 0 <= i < keys.len() && keys[i] == k;
        lemma_assoc_at(keys, vals, i);
    }
    assert(assoc_map(keys, vals) =~= m);
}

proof fn lemma_assoc_dom_len<T>(keys: Seq<Seq<char>>, vals: Seq<T>)
    requires
        keys_sorted(keys),
    ensures
        assoc_map(keys, vals).dom().len() == keys.len(),
        assoc_map(keys, vals).dom().finite(),
{
    assert(keys.no_duplicates()) by {
        assert forall|i: int, j: int| 0 <= i < keys.len() && 0 <= j < keys.len() && i != j implies keys[i]
            != keys[j] by {
            if keys[i] == keys[j] {
                if i < j {
                    assert(key_less(keys[i], keys[j]));
                } else {
                    assert(key_less(keys[j], keys[i]));
                }
                lemma_key_less_irreflexive(keys[i]);
            }
        }
    }
    keys.unique_seq_to_set();
    assert(assoc_map(keys, vals).dom() =~= keys.to_set());
    vstd::seq_lib::seq_to_set_is_finite(keys);
}

/// Replacing one series map changes the total by the difference of their
/// partition counts.
proof fn lemma_total_update<V>(vals: Seq<Map<u64, Seq<DataPoint<V>>>>, k: int, x: Map<u64, Seq<DataPoint<V>>>)
    requires
        0 <= k < vals.len(),
    ensures
        partitions_total(vals.update(k, x)) == partitions_total(vals) - vals[k].dom().len() + x.dom().len(),
    decreases vals.len(),
{
    let u = vals.update(k, x);
    if k == vals.len() - 1 {
        assert(u.drop_last() =~= vals.drop_last());
    } else {
        assert(u.drop_last() =~= vals.drop_last().update(k, x));
        lemma_total_update(vals.drop_last(), k, x);
    }
}

/// Adding a series map adds its partition count to the total.
proof fn lemma_total_insert<V>(vals: Seq<Map<u64, Seq<DataPoint<V>>>>, k: int, x: Map<u64, Seq<DataPoint<V>>>)
    requires
        0 <= k <= vals.len(),
    ensures
        partitions_total(vals.insert(k, x)) == partitions_total(vals) + x.dom().len(),
    decreases vals.len(),
{
    let u = vals.insert(k, x);
    if k == vals.len() {
        assert(u.drop_last() =~= vals);
    } else {
        assert(u.drop_last() =~= vals.drop_last().insert(k, x));
        lemma_total_insert(vals.drop_last(), k, x);
    }
}

/// Inserting a point into a series map adds at most one partition.
proof fn lemma_insert_adds_at_most_one<V>(m: Map<u64, Seq<DataPoint<V>>>, size: u64, p: DataPoint<V>)
    requires
        m.dom().finite(),
    ensures
        series_insert(m, size, p).dom().len() <= m.dom().len() + 1,
{
    let s = crate::series::bucket_of(p.timestamp, size);
    assert(series_insert(m, size, p).dom() =~= m.dom().insert(s));
}

proof fn lemma_total_step<V>(vals: Seq<Map<u64, Seq<DataPoint<V>>>>, i: int)
    requires
        0 <= i < vals.len(),
    ensures
        partitions_total(vals.take(i + 1)) == partitions_total(vals.take(i)) + vals[i].dom().len(),
{
    assert(vals.take(i + 1).drop_last() =~= vals.take(i));
}

proof fn lemma_total_nonneg<V>(vals: Seq<Map<u64, Seq<DataPoint<V>>>>)
    ensures
        partitions_total(vals) >= 0,
    decreases vals.len(),
{
    if vals.len() > 0 {
        lemma_total_nonneg(vals.drop_last());
    }
}

/// The partitions of a prefix are no more than those of the whole.
proof fn lemma_total_prefix<V>(vals: Seq<Map<u64, Seq<DataPoint<V>>>>, i: int)
    requires
        0 <= i <= vals.len(),
    ensures
        partitions_total(vals.take(i)) <= partitions_total(vals),
    decreases vals.len() - i,
{
    if i < vals.len() {
        lemma_total_step(vals, i);
        lemma_total_prefix(vals, i + 1);
    } else {
        assert(vals.take(i) =~= vals);
    }
}

/// Appending a record to a log and replaying it rebuilds the store replayed
/// from the log before, with the record's point ingested.
pub proof fn lemma_replay_append<V>(size: u64, records: Seq<WalRecord<V>>, r: WalRecord<V>)
    ensures
        store_replay(size, records.push(r)) == store_ingest(
            store_replay(size, records),
            size,
            r.series@,
            DataPoint { timestamp: r.timestamp, value: r.value },
        ),
{
    assert(records.push(r).drop_last() =~= records);
}

/// The point a log record holds.
pub open spec fn record_point<V>(r: WalRecord<V>) -> DataPoint<V> {
    DataPoint { timestamp: r.timestamp, value: r.value }
}

/// Whether some record names series `key`.
pub open spec fn has_record<V>(records: Seq<WalRecord<V>>, key: Seq<char>) -> bool {
    exists|i: int| 0 <= i < records.len() && records[i].series@ == key
}

/// The points of the records of series `key`, in log order.
pub open spec fn records_of<V>(records: Seq<WalRecord<V>>, key: Seq<char>) -> Seq<DataPoint<V>> {
    records.filter(|r: WalRecord<V>| r.series@ == key).map_values(|r: WalRecord<V>| record_point(r))
}

/// Points inserted one after another in stable time order: sorted by
/// timestamp, equal timestamps in the order they came.
pub open spec fn insert_all<V>(points: Seq<DataPoint<V>>) -> Seq<DataPoint<V>>
    decreases points.len(),
{
    if points.len() == 0 {
        Seq::empty()
    } else {
        insert_sorted(insert_all(points.drop_last()), points.last())
    }
}

/// What replaying a log builds: a series for exactly the keys the records
/// name, each holding the points of its records in stable time order, whatever
/// the partition width.
pub proof fn lemma_replay_model<V>(size: u64, records: Seq<WalRecord<V>>)
    requires
        size >= 1,
    ensures
        forall|key: Seq<char>| #[trigger] store_replay(size, records).dom().contains(key) <==> has_record(records, key),
        forall|key: Seq<char>|
            #[trigger] store_replay(size, records).dom().contains(key) ==> {
                &&& is_series_map(store_replay(size, records)[key], size)
                &&& map_points(store_replay(size, records)[key]) == insert_all(records_of(records, key))
            },
    decreases records.len(),
{
    if records.len() == 0 {
        assert forall|key: Seq<char>| !has_record(records, key) by {}
    } else {
        let prev = records.drop_last();
        let r = records.last();
        let k0 = r.series@;
        let pt = record_point(r);
        lemma_replay_model(size, prev);
        let m = store_replay(size, prev);
        let m2 = store_replay(size, records);
        assert(m2 == store_ingest(m, size, k0, pt));
        assert(prev.push(r) =~= records);
        assert forall|key: Seq<char>| #[trigger] m2.dom().contains(key) <==> has_record(records, key) by {
            if has_record(records, key) && key != k0 {
                let i = choose|i: int| 0 <= i < records.len() && records[i].series@ == key;
                assert(prev[i] == records[i]);
                assert(has_record(prev, key));
            }
            if m.dom().contains(key) {
                let i = choose|i: int| 0 <= i < prev.len() && prev[i].series@ == key;
                assert(records[i] == prev[i]);
            }
            if key == k0 {
                assert(records[records.len() - 1].series@ == key);
            }
        }
        let sel = |q: WalRecord<V>| q.series@ == k0;
        let f = |q: WalRecord<V>| record_point(q);
        assert forall|key: Seq<char>| #[trigger] m2.dom().contains(key) implies {
            &&& is_series_map(m2[key], size)
            &&& map_points(m2[key]) == insert_all(records_of(records, key))
        } by {
            let selk = |q: WalRecord<V>| q.series@ == key;
            prev.lemma_filter_push(r, selk);
            if key == k0 {
                let old = if m.dom().contains(key) {
                    m[key]
                } else {
                    Map::<u64, Seq<DataPoint<V>>>::empty()
                };
                if !m.dom().contains(key) {
                    lemma_empty_is_series_map::<V>(size);
                    assert forall|i: int| 0 <= i < prev.len() implies !selk(#[trigger] prev[i]) by {
                        if selk(prev[i]) {
                            assert(has_record(prev, key));
                        }
                    }
                    crate::point::lemma_filter_keeps_none(prev, selk);
                    assert(records_of(prev, key) =~= Seq::<DataPoint<V>>::empty());
                    assert(insert_all(records_of(prev, key)) == Seq::<DataPoint<V>>::empty());
                }
                lemma_series_insert_points(old, size, pt);
                lemma_series_insert_sorted(old, size, pt);
                let before = prev.filter(selk);
                assert(before.push(r).map_values(f) =~= before.map_values(f).push(pt));
                let pts = records_of(records, key);
                assert(pts == records_of(prev, key).push(pt));
                assert(pts.drop_last() =~= records_of(prev, key));
            } else {
                assert(records_of(records, key) == records_of(prev, key));
            }
        }
    }
}

/// The points a series holds do not depend on the partition width: two
/// stores replayed from one log, with any widths, have the same series with
/// the same points.
pub proof fn lemma_replay_independent_of_width<V>(n1: u64, n2: u64, records: Seq<WalRecord<V>>, key: Seq<char>)
    requires
        n1 >= 1,
        n2 >= 1,
    ensures
        store_replay(n1, records).dom() == store_replay(n2, records).dom(),
        store_replay(n1, records).dom().contains(key) ==> map_points(store_replay(n1, records)[key]) == map_points(
            store_replay(n2, records)[key],
        ),
{
    lemma_replay_model(n1, records);
    lemma_replay_model(n2, records);
    assert(store_replay(n1, records).dom() =~= store_replay(n2, records).dom());
}

/// Queries do not depend on the partition width: on two stores replayed from
/// one log with any widths, a query of the same series, range and window
/// returns the same windows.
pub proof fn lemma_queries_agree_across_widths<V>(
    n1: u64,
    n2: u64,
    records: Seq<WalRecord<V>>,
    key: Seq<char>,
    from: int,
    to: int,
    w: int,
    g1: Seq<(u64, Seq<V>)>,
    g2: Seq<(u64, Seq<V>)>,
)
    requires
        n1 >= 1,
        n2 >= 1,
        store_replay(n1, records).dom().contains(key),
        is_window_grouping(series_range(store_replay(n1, records), key, from, to), w, g1),
        is_window_grouping(series_range(store_replay(n2, records), key, from, to), w, g2),
    ensures
        store_replay(n2, records).dom().contains(key),
        g1 == g2,
{
    lemma_replay_independent_of_width(n1, n2, records, key);
    crate::aggregate::lemma_window_grouping_unique(series_range(store_replay(n1, records), key, from, to), w, g1, g2);
}

/// Retention keeps every series: the keys of a store are unchanged by it.
pub proof fn lemma_retain_keeps_keys<V>(m: Map<Seq<char>, Map<u64, Seq<DataPoint<V>>>>, size: u64, cutoff: u64)
    ensures
        store_retain(m, size, cutoff).dom() == m.dom(),
{
    assert(store_retain(m, size, cutoff).dom() =~= m.dom());
}

/// A write to a store, as a call history sees it: a point ingested into a
/// series, or retention at a cutoff.
pub ghost enum StoreOp<V> {
    Ingest(Seq<char>, DataPoint<V>),
    Retain(u64),
}

/// The store after the writes `ops`, in order, starting from `m`.
pub open spec fn store_run<V>(
    m: Map<Seq<char>, Map<u64, Seq<DataPoint<V>>>>,
    size: u64,
    ops: Seq<StoreOp<V>>,
) -> Map<Seq<char>, Map<u64, Seq<DataPoint<V>>>>
    decreases ops.len(),
{
    if ops.len() == 0 {
        m
    } else {
        let before = store_run(m, size, ops.drop_last());
        match ops.last() {
            StoreOp::Ingest(key, p) => store_ingest(before, size, key, p),
            StoreOp::Retain(c) => store_retain(before, size, c),
        }
    }
}

/// Whether some write of `ops` ingests into series `key`.
pub open spec fn ingests_into<V>(ops: Seq<StoreOp<V>>, key: Seq<char>) -> bool {
    exists|i: int| 0 <= i < ops.len() && (#[trigger] ops[i] matches StoreOp::Ingest(k, _) && k == key)
}

/// The series of a store after any history of ingests and retentions are
/// those it had before and those ingested into: ingest adds its key, and
/// retention never removes one.
pub proof fn lemma_run_keys<V>(m: Map<Seq<char>, Map<u64, Seq<DataPoint<V>>>>, size: u64, ops: Seq<StoreOp<V>>)
    ensures
        forall|key: Seq<char>|
            #[trigger] store_run(m, size, ops).dom().contains(key) <==> (m.dom().contains(key) || ingests_into(
                ops,
                key,
            )),
        m.dom().finite() ==> store_run(m, size, ops).dom().finite(),
    decreases ops.len(),
{
    if ops.len() > 0 {
        let prev = ops.drop_last();
        lemma_run_keys(m, size, prev);
        let before = store_run(m, size, prev);
        let after = store_run(m, size, ops);
        assert forall|key: Seq<char>| #[trigger] after.dom().contains(key) <==> (m.dom().contains(key)
            || ingests_into(ops, key)) by {
            if ingests_into(prev, key) {
                let i = choose|i: int| 0 <= i < prev.len() && (#[trigger] prev[i] matches StoreOp::Ingest(k, _) && k == key);
                assert(ops[i] == prev[i]);
            }
            if ingests_into(ops, key) {
                let i = choose|i: int| 0 <= i < ops.len() && (#[trigger] ops[i] matches StoreOp::Ingest(k, _) && k == key);
                if i < ops.len() - 1 {
                    assert(prev[i] == ops[i]);
                }
            }
            match ops.last() {
                StoreOp::Ingest(k, p) => {
                    if key == k {
                        assert(ops[ops.len() - 1] matches StoreOp::Ingest(k2, _) && k2 == key);
                    }
                },
                StoreOp::Retain(c) => {
                    lemma_retain_keeps_keys(before, size, c);
                },
            }
        }
        match ops.last() {
            StoreOp::Ingest(k, p) => {},
            StoreOp::Retain(c) => {
                lemma_retain_keeps_keys(before, size, c);
            },
        }
    }
}

/// The keys a store lists (as [`Store::series_keys`] lists them: strictly
/// ascending, each a series, every series listed) after any history of
/// ingests and retentions from an empty store are exactly the keys ingested
/// into, each once, as many as there are series.
pub proof fn lemma_listed_keys_of_history<V>(size: u64, ops: Seq<StoreOp<V>>, keys: Seq<Seq<char>>)
    requires
        keys_sorted(keys),
        forall|i: int| 0 <= i < keys.len() ==> store_run(Map::empty(), size, ops).dom().contains(#[trigger] keys[i]),
        forall|k: Seq<char>| #[trigger] store_run(Map::empty(), size, ops).dom().contains(k) ==> keys.contains(k),
    ensures
        forall|k: Seq<char>| #[trigger] keys.contains(k) <==> ingests_into(ops, k),
        keys.no_duplicates(),
        keys.len() == store_run(Map::empty(), size, ops).dom().len(),
{
    let e = Map::<Seq<char>, Map<u64, Seq<DataPoint<V>>>>::empty();
    let d = store_run(e, size, ops).dom();
    lemma_run_keys(e, size, ops);
    assert(e.dom().finite());
    assert forall|k: Seq<char>| #[trigger] keys.contains(k) <==> ingests_into(ops, k) by {
        if keys.contains(k) {
            let i = choose|i: int| 0 <= i < keys.len() && keys[i] == k;
            assert(d.contains(keys[i]));
        }
        if ingests_into(ops, k) {
            assert(d.contains(k));
        }
    }
    assert forall|i: int, j: int| 0 <= i < keys.len() && 0 <= j < keys.len() && i != j implies keys[i] != keys[j] by {
        if i < j {
            assert(key_less(keys[i], keys[j]));
            lemma_key_less_irreflexive(keys[i]);
        } else {
            assert(key_less(keys[j], keys[i]));
            lemma_key_less_irreflexive(keys[j]);
        }
    }
    assert(keys.to_set() =~= d);
    keys.unique_seq_to_set();
}

/// Retention of a store at `now` with a `horizon` keeps every series and
/// drops, in each, exactly the partitions lying entirely before `now -
/// horizon` (none when the horizon reaches back past the start of time): a
/// partition starting at `b` stays iff its last tick `b + size - 1` is within
/// `horizon` ticks of `now` or later (one running past the end of time stays
/// unless `now` is `u64::MAX` with no horizon). What stays keeps its points.
pub proof fn lemma_store_retention_window<V>(
    m: Map<Seq<char>, Map<u64, Seq<DataPoint<V>>>>,
    size: u64,
    now: u64,
    horizon: u64,
)
    requires
        size >= 1,
    ensures
        store_retain(m, size, cutoff_spec(now, horizon)).dom() == m.dom(),
        forall|key: Seq<char>, b: u64|
            m.dom().contains(key) ==> (#[trigger] store_retain(m, size, cutoff_spec(now, horizon))[key].dom().contains(
                b,
            ) <==> (m[key].dom().contains(b) && if b + size <= u64::MAX {
                b + size - 1 + horizon >= now
            } else {
                !(now == u64::MAX && horizon == 0)
            })),
        forall|key: Seq<char>, b: u64|
            m.dom().contains(key) && #[trigger] store_retain(m, size, cutoff_spec(now, horizon))[key].dom().contains(
                b,
            ) ==> store_retain(m, size, cutoff_spec(now, horizon))[key][b] == m[key][b],
{
    let c = cutoff_spec(now, horizon);
    crate::retention::lemma_cutoff_is_horizon_before_now(now, horizon);
    assert(store_retain(m, size, c).dom() =~= m.dom());
    assert forall|key: Seq<char>| m.dom().contains(key) implies store_retain(m, size, c)[key] == retain_series(
        m[key],
        size,
        c,
    ) by {}
    assert forall|key: Seq<char>, b: u64|
        m.dom().contains(key) implies (#[trigger] store_retain(m, size, c)[key].dom().contains(b) <==> (
        m[key].dom().contains(b) && if b + size <= u64::MAX {
            b + size - 1 + horizon >= now
        } else {
            !(now == u64::MAX && horizon == 0)
        })) by {
        crate::series::lemma_retain_drops_exactly_the_past(m[key], size, c);
        assert(retain_series(m[key], size, c).dom().contains(b) == store_retain(m, size, c)[key].dom().contains(b));
    }
    assert forall|key: Seq<char>, b: u64|
        m.dom().contains(key) && #[trigger] store_retain(m, size, c)[key].dom().contains(b) implies store_retain(
        m,
        size,
        c,
    )[key][b] == m[key][b] by {
        crate::series::lemma_retain_drops_exactly_the_past(m[key], size, c);
    }
}

/// Retention across a store never loses a point at or after the cutoff, in
/// any series, and removes no series. (A cutoff of `u64::MAX` is left out: a
/// last partition whose end saturates then counts as expired.)
pub proof fn lemma_store_retention_keeps_recent<V>(
    m: Map<Seq<char>, Map<u64, Seq<DataPoint<V>>>>,
    size: u64,
    cutoff: u64,
    key: Seq<char>,
)
    requires
        size >= 1,
        m.dom().contains(key),
        is_series_map(m[key], size),
        cutoff < u64::MAX,
    ensures
        store_retain(m, size, cutoff).dom() == m.dom(),
        map_points(store_retain(m, size, cutoff)[key]).filter(at_or_after(cutoff as int)) == map_points(
            m[key],
        ).filter(at_or_after(cutoff as int)),
{
    lemma_retention_keeps_recent(m[key], size, cutoff);
    assert(store_retain(m, size, cutoff).dom() =~= m.dom());
}

/// What a read gives back of a write: after a point is ingested into a
/// series, a query of that series over any range holding the point's
/// timestamp returns the point's value in the window of its timestamp.
pub proof fn lemma_ingest_then_query<V>(
    m: Map<Seq<char>, Map<u64, Seq<DataPoint<V>>>>,
    size: u64,
    key: Seq<char>,
    p: DataPoint<V>,
    from: int,
    to: int,
    w: int,
)
    requires
        size >= 1,
        m.dom().contains(key) ==> is_series_map(m[key], size),
        from <= p.timestamp < to,
        w > 0,
    ensures
        window_values(
            series_range(store_ingest(m, size, key, p), key, from, to),
            w,
            aligned_start(p.timestamp as int, w),
        ).contains(p.value),
{
    let before = if m.dom().contains(key) {
        m[key]
    } else {
        Map::<u64, Seq<DataPoint<V>>>::empty()
    };
    if !m.dom().contains(key) {
        lemma_empty_is_series_map::<V>(size);
    }
    lemma_series_insert_points(before, size, p);
    let pts = map_points(series_insert(before, size, p));
    assert(pts.to_multiset().count(p) > 0);
    assert(pts.contains(p)) by {
        vstd::seq_lib::to_multiset_contains(pts, p);
    }
    let i = choose|i: int| 0 <= i < pts.len() && pts[i] == p;
    let r = pts.filter(in_range::<V>(from, to));
    pts.lemma_filter_contains(in_range::<V>(from, to), i);
    let j = choose|j: int| 0 <= j < r.len() && r[j] == p;
    let s = aligned_start(p.timestamp as int, w);
    let win = r.filter(in_window::<V>(w, s));
    r.lemma_filter_contains(in_window::<V>(w, s), j);
    let q = choose|q: int| 0 <= q < win.len() && win[q] == p;
    let vals = win.map_values(|d: DataPoint<V>| d.value);
    assert(vals[q] == p.value);
}

/// An in-memory, time-series store holding multiple partitioned series.
///
/// The series are held in `Vec`s kept in ascending key order, one entry per
/// key, rather than in a `BTreeMap<String, _>`: vstd's `BTreeMap` contracts
/// hold only for keys whose `Ord` it knows to obey its laws, which `String`
/// is not among, and it specifies no `entry` or `values_mut` for the ingest
/// and retention paths.
#[derive(Debug, Clone)]
pub struct Store<V> {
    partition_size: u64,
    keys: Vec<String>,
    key_chars: Vec<Vec<char>>,
    series: Vec<Series<V>>,
}

impl<V: Copy> Store<V> {
    /// The series keys, in ascending key order.
    closed spec fn key_seq(&self) -> Seq<Seq<char>> {
        self.key_chars@.map_values(|k: Vec<char>| k@)
    }

    /// The series maps, in key order.
    closed spec fn val_seq(&self) -> Seq<Map<u64, Seq<DataPoint<V>>>> {
        self.series@.map_values(|s: Series<V>| s@)
    }

    /// The width of the store's partitions.
    pub closed spec fn partition_size_spec(&self) -> u64 {
        self.partition_size
    }

    /// The number of partitions across all series.
    pub closed spec fn partition_total(&self) -> int {
        partitions_total(self.val_seq())
    }

    /// The store's internal invariant.
    pub closed spec fn wf(&self) -> bool {
        &&& self.partition_size >= 1
        &&& self.keys@.len() == self.key_chars@.len()
        &&& self.series@.len() == self.key_chars@.len()
        &&& keys_sorted(self.key_seq())
        &&& forall|i: int|
            0 <= i < self.series@.len() ==> {
                &&& (#[trigger] self.series@[i]).wf()
                &&& self.series@[i].partition_size_spec() == self.partition_size
            }
        &&& forall|i: int| 0 <= i < self.keys@.len() ==> (#[trigger] self.keys@[i])@ == self.key_chars@[i]@
    }

    /// Where key `k` is, or would be inserted, in the sorted key list.
    fn find(&self, k: &Vec<char>) -> (r: (usize, bool))
        requires
            self.wf(),
        ensures
            r.0 <= self.key_seq().len(),
            forall|i: int| 0 <= i < r.0 ==> key_less(#[trigger] self.key_seq()[i], k@),
            forall|i: int| r.0 <= i < self.key_seq().len() ==> key_less(k@, #[trigger] self.key_seq()[i]) || (
            i == r.0 && r.1),
            r.1 <==> (r.0 < self.key_seq().len() && self.key_seq()[r.0 as int] == k@),
    {
        let ghost ks = self.key_seq();
        let mut lo: usize = 0;
        let mut hi: usize = self.key_chars.len();
        while lo < hi
            invariant
                lo <= hi <= ks.len(),
                ks == self.key_seq(),
                ks.len() == self.key_chars@.len(),
                keys_sorted(ks),
                forall|i: int| 0 <= i < lo ==> key_less(#[trigger] ks[i], k@),
                forall|i: int| hi <= i < ks.len() ==> !key_less(#[trigger] ks[i], k@),
            decreases hi - lo,
        {
            let mid = lo + (hi - lo) / 2;
            assert(ks[mid as int] == self.key_chars@[mid as int]@);
            if chars_less(&self.key_chars[mid], k) {
                proof {
                    assert forall|i: int| 0 <= i <= mid implies key_less(#[trigger] ks[i], k@) by {
                        if i < mid {
                            lemma_key_less_transitive(ks[i], ks[mid as int], k@);
                        }
                    }
                }
                lo = mid + 1;
            } else {
                proof {
                    assert forall|i: int| mid <= i < ks.len() implies !key_less(#[trigger] ks[i], k@) by {
                        if i > mid && key_less(ks[i], k@) {
                            lemma_key_less_transitive(ks[mid as int], ks[i], k@);
                        }
                    }
                }
                hi = mid;
            }
        }
        let found = lo < self.key_chars.len() && chars_equal(&self.key_chars[lo], k);
        proof {
            if lo < ks.len() {
                assert(ks[lo as int] == self.key_chars@[lo as int]@);
            }
            assert forall|i: int| lo <= i < ks.len() implies key_less(k@, #[trigger] ks[i]) || (i == lo
                && found) by {
                if i == lo {
                    if !found {
                        lemma_key_less_total(ks[i], k@);
                    }
                } else {
                    if ks[i] == k@ {
                        assert(key_less(ks[lo as int], ks[i]));
                    } else {
                        lemma_key_less_total(ks[i], k@);
                    }
                }
            }
        }
        (lo, found)
    }

    /// Creates a store whose series partition into buckets of `partition_size`
    /// ticks (clamped to at least 1).
    pub fn new(partition_size: u64) -> (r: Self)
        ensures
            r.wf(),
            r.partition_size_spec() == if partition_size >= 1 { partition_size } else { 1 },
            r@ == Map::<Seq<char>, Map<u64, Seq<DataPoint<V>>>>::empty(),
            r.partition_total() == 0,
    {
        let size = if partition_size >= 1 { partition_size } else { 1 };
        let r = Store { partition_size: size, keys: Vec::new(), key_chars: Vec::new(), series: Vec::new() };
        assert(r@ =~= Map::<Seq<char>, Map<u64, Seq<DataPoint<V>>>>::empty());
        r
    }

    /// The number of series.
    pub fn series_count(&self) -> (r: usize)
        requires
            self.wf(),
        ensures
            r == self@.dom().len(),
    {
        proof {
            lemma_assoc_dom_len(self.key_seq(), self.val_seq());
        }
        self.series.len()
    }

    /// The series keys, in ascending order.
    pub fn series_keys(&self) -> (r: Vec<String>)
        requires
            self.wf(),
        ensures
            r@.len() == self@.dom().len(),
            forall|i: int| 0 <= i < r@.len() ==> self@.dom().contains(#[trigger] r@[i]@),
            forall|i: int, j: int| 0 <= i < j < r@.len() ==> key_less(r@[i]@, r@[j]@),
            forall|k: Seq<char>|
                #[trigger] self@.dom().contains(k) ==> exists|i: int| 0 <= i < r@.len() && r@[i]@ == k,
    {
        proof {
            lemma_assoc_dom_len(self.key_seq(), self.val_seq());
        }
        let mut out: Vec<String> = Vec::new();
        let mut i: usize = 0;
        while i < self.keys.len()
            invariant
                self.wf(),
                i <= self.keys@.len(),
                out@.len() == i,
                forall|j: int| 0 <= j < i ==> (#[trigger] out@[j])@ == self.key_seq()[j],
            decreases self.keys@.len() - i,
        {
            let k = self.keys[i].clone();
            out.push(k);
            assert(self.keys@[i as int]@ == self.key_chars@[i as int]@);
            i = i + 1;
        }
        proof {
            assert forall|j: int| 0 <= j < out@.len() implies self@.dom().contains(#[trigger] out@[j]@) by {
                lemma_assoc_at(self.key_seq(), self.val_seq(), j);
            }
            assert forall|k: Seq<char>| #[trigger] self@.dom().contains(k) implies exists|i: int|
                0 <= i < out@.len() && out@[i]@ == k by {
                let j = entry_index(self.key_seq(), k);
                assert(out@[j]@ == k);
            }
        }
        out
    }

    /// The number of points stored for a series (0 if the series is unknown).
    pub fn point_count(&self, key: &str) -> (r: usize)
        requires
            self.wf(),
            self@.dom().contains(key@) ==> map_points(self@[key@]).len() <= usize::MAX,
        ensures
            r == if self@.dom().contains(key@) {
                map_points(self@[key@]).len()
            } else {
                0
            },
    {
        let kc = chars_of(key);
        let (k, found) = self.find(&kc);
        proof {
            self.lemma_lookup(k as int, found, key@);
        }
        if found {
            self.series[k].point_count()
        } else {
            0
        }
    }

    /// Ingests a point into the named series, creating the series if needed.
    pub fn ingest(&mut self, key: &str, point: DataPoint<V>)
        requires
            old(self).wf(),
        ensures
            final(self).wf(),
            final(self).partition_size_spec() == old(self).partition_size_spec(),
            final(self)@ == store_ingest(old(self)@, old(self).partition_size_spec(), key@, point),
            final(self).partition_total() <= old(self).partition_total() + 1,
    {
        let kc = chars_of(key);
        let (k, found) = self.find(&kc);
        let ghost ks = self.key_seq();
        let ghost vs = self.val_seq();
        let ghost size = self.partition_size;
        let ghost m = store_ingest(self@, size, key@, point);
        proof {
            self.lemma_lookup(k as int, found, key@);
        }
        if found {
            self.series[k].insert(point);
            proof {
                let nvs = self.val_seq();
                assert(self.key_seq() =~= ks);
                assert(nvs =~= vs.update(k as int, series_insert(vs[k as int], size, point)));
                old(self).series@[k as int].lemma_dom_len();
                lemma_insert_adds_at_most_one(vs[k as int], size, point);
                lemma_total_update(vs, k as int, series_insert(vs[k as int], size, point));
                assert forall|i: int| 0 <= i < ks.len() implies m.dom().contains(#[trigger] ks[i]) && m[ks[i]]
                    == nvs[i] by {
                    if i != k {
                        lemma_assoc_at(ks, vs, i);
                        if ks[i] == key@ {
                            if i < k {
                                assert(key_less(ks[i], ks[k as int]));
                            } else {
                                assert(key_less(ks[k as int], ks[i]));
                            }
                            lemma_key_less_irreflexive(key@);
                        }
                    }
                }
                assert forall|q: Seq<char>| m.dom().contains(q) implies has_entry(ks, q) by {
                    if q == key@ {
                        assert(ks[k as int] == q);
                    }
                }
                lemma_assoc_ext(ks, nvs, m);
            }
        } else {
            let mut series = Series::new(self.partition_size);
            series.insert(point);
            self.keys.insert(k, key.to_owned());
            self.key_chars.insert(k, kc);
            self.series.insert(k, series);
            proof {
                let nks = self.key_seq();
                let nvs = self.val_seq();
                assert(nks =~= ks.insert(k as int, key@));
                assert(nvs =~= vs.insert(
                    k as int,
                    series_insert(Map::<u64, Seq<DataPoint<V>>>::empty(), size, point),
                ));
                lemma_insert_adds_at_most_one(Map::<u64, Seq<DataPoint<V>>>::empty(), size, point);
                lemma_total_insert(vs, k as int, series_insert(Map::<u64, Seq<DataPoint<V>>>::empty(), size, point));
                assert(keys_sorted(nks)) by {
                    assert forall|i: int, j: int| 0 <= i < j < nks.len() implies key_less(nks[i], nks[j]) by {
                        if j < k {
                        } else if j == k {
                            assert(key_less(ks[i], key@));
                        } else if i == k {
                            assert(nks[j] == ks[j - 1]);
                        } else if i < k {
                            assert(key_less(ks[i], ks[j - 1]));
                        } else {
                            assert(key_less(ks[i - 1], ks[j - 1]));
                        }
                    }
                }
                assert forall|i: int| 0 <= i < nks.len() implies m.dom().contains(#[trigger] nks[i]) && m[nks[i]]
                    == nvs[i] by {
                    if i < k {
                        lemma_assoc_at(ks, vs, i);
                        assert(key_less(ks[i], key@));
                        lemma_key_less_irreflexive(key@);
                    } else if i > k {
                        lemma_assoc_at(ks, vs, i - 1);
                        assert(key_less(key@, ks[i - 1]));
                        lemma_key_less_irreflexive(key@);
                    }
                }
                assert forall|q: Seq<char>| m.dom().contains(q) implies has_entry(nks, q) by {
                    if q == key@ {
                        assert(nks[k as int] == q);
                    } else {
                        let j = entry_index(ks, q);
                        if j < k {
                            assert(nks[j] == q);
                        } else {
                            assert(nks[j + 1] == q);
                        }
                    }
                }
                lemma_assoc_ext(nks, nvs, m);
                assert forall|i: int| 0 <= i < self.keys@.len() implies (#[trigger] self.keys@[i])@
                    == self.key_chars@[i]@ by {
                    if i < k {
                        assert(self.keys@[i] == old(self).keys@[i]);
                    } else if i > k {
                        assert(self.keys@[i] == old(self).keys@[i - 1]);
                    }
                }
            }
        }
    }

    /// Runs a windowed range query against a series: the points of the series
    /// in `[spec.from, spec.to)`, grouped into windows of `spec.window` ticks.
    /// An unknown series yields an empty result.
    pub fn query(&self, key: &str, spec: &QuerySpec) -> (r: Result<Vec<WindowGroup<V>>, CoreError>)
        requires
            self.wf(),
        ensures
            !self@.dom().contains(key@) ==> (r matches Ok(g) && g@.len() == 0),
            self@.dom().contains(key@) ==> (r is Err <==> spec.window == 0),
            r matches Err(e) ==> e == CoreError::InvalidWindow,
            self@.dom().contains(key@) ==> (r matches Ok(g) ==> is_window_grouping(
                series_range(self@, key@, spec.from as int, spec.to as int),
                spec.window as int,
                group_entries(g@),
            )),
    {
        let kc = chars_of(key);
        let (k, found) = self.find(&kc);
        proof {
            self.lemma_lookup(k as int, found, key@);
        }
        if !found {
            return Ok(Vec::new());
        }
        let points = self.series[k].range(spec.from, spec.to);
        group_windows(points.as_slice(), spec.window)
    }

    /// Applies retention across every series, dropping partitions older than
    /// `horizon` relative to `now`. Returns the total partitions dropped.
    pub fn retain(&mut self, now: Timestamp, horizon: u64) -> (r: usize)
        requires
            old(self).wf(),
            old(self).partition_total() <= usize::MAX,
        ensures
            final(self).wf(),
            final(self).partition_size_spec() == old(self).partition_size_spec(),
            final(self)@ == store_retain(old(self)@, old(self).partition_size_spec(), cutoff_spec(now, horizon)),
            r == old(self).partition_total() - final(self).partition_total(),
    {
        let c = cutoff(now, horizon);
        let ghost size = self.partition_size;
        let ghost ks = self.key_seq();
        let ghost vs = self.val_seq();
        let ghost n = vs.len();
        let mut total: usize = 0;
        let mut i: usize = 0;
        while i < self.series.len()
            invariant
                self.partition_size == size,
                old(self).partition_size == size,
                self.keys == old(self).keys,
                self.key_chars == old(self).key_chars,
                self.key_seq() == ks,
                vs == old(self).val_seq(),
                n == vs.len(),
                old(self).wf(),
                partitions_total(vs) <= usize::MAX,
                self.series@.len() == n,
                i <= n,
                forall|j: int| 0 <= j < i ==> {
                    &&& (#[trigger] self.series@[j]).wf()
                    &&& self.series@[j].partition_size_spec() == size
                    &&& self.series@[j]@ == retain_series(vs[j], size, c)
                },
                forall|j: int| i <= j < n ==> #[trigger] self.series@[j] == old(self).series@[j],
                total == partitions_total(vs.take(i as int)) - partitions_total(self.val_seq().take(i as int)),
                partitions_total(self.val_seq().take(i as int)) >= 0,
            decreases n - i,
        {
            let ghost before = self.val_seq();
            assert(self.series@[i as int] == old(self).series@[i as int]);
            assert(old(self).series@[i as int].wf());
            let d = self.series[i].retain(c);
            proof {
                let after = self.val_seq();
                assert(vs[i as int] == old(self).series@[i as int]@);
                assert(after.take(i as int) =~= before.take(i as int));
                lemma_total_step(vs, i as int);
                lemma_total_step(after, i as int);
                lemma_total_prefix(vs, i + 1);
                lemma_total_nonneg(after.take(i as int));
            }
            total = total + d;
            i = i + 1;
        }
        proof {
            let nvs = self.val_seq();
            assert(vs.take(n as int) =~= vs);
            assert(nvs.take(n as int) =~= nvs);
            let m = store_retain(old(self)@, size, c as u64);
            assert forall|j: int| 0 <= j < ks.len() implies m.dom().contains(#[trigger] ks[j]) && m[ks[j]]
                == nvs[j] by {
                lemma_assoc_at(ks, vs, j);
            }
            assert forall|q: Seq<char>| m.dom().contains(q) implies has_entry(ks, q) by {}
            lemma_assoc_ext(ks, nvs, m);
        }
        total
    }

    /// Rebuilds a store by ingesting `records` in order into an empty store
    /// whose series partition into buckets of `partition_size` ticks (clamped
    /// to at least 1).
    pub fn from_records(partition_size: u64, records: &[WalRecord<V>]) -> (r: Self)
        ensures
            r.wf(),
            r.partition_size_spec() == if partition_size >= 1 { partition_size } else { 1 },
            r@ == store_replay(r.partition_size_spec(), records@),
            r.partition_total() <= records@.len(),
    {
        let mut store = Store::new(partition_size);
        let ghost size = store.partition_size;
        let mut i: usize = 0;
        while i < records.len()
            invariant
                i <= records@.len(),
                store.wf(),
                store.partition_size == size,
                store@ == store_replay(size, records@.take(i as int)),
                store.partition_total() <= i,
            decreases records@.len() - i,
        {
            let record = &records[i];
            store.ingest(record.series.as_str(), DataPoint::new(record.timestamp, record.value));
            proof {
                assert(records@.take(i + 1).drop_last() =~= records@.take(i as int));
                assert(records@.take(i + 1).last() == records@[i as int]);
            }
            i = i + 1;
        }
        assert(records@.take(i as int) =~= records@);
        store
    }

    /// Every series map of a well-formed store is the map of a well-formed
    /// series of the store's partition width.
    pub proof fn lemma_series_maps(&self)
        requires
            self.wf(),
        ensures
            self.partition_size_spec() >= 1,
            forall|k: Seq<char>|
                #[trigger] self@.dom().contains(k) ==> is_series_map(self@[k], self.partition_size_spec()),
    {
        assert forall|k: Seq<char>| #[trigger] self@.dom().contains(k) implies is_series_map(
            self@[k],
            self.partition_size_spec(),
        ) by {
            let i = entry_index(self.key_seq(), k);
            lemma_assoc_at(self.key_seq(), self.val_seq(), i);
            self.series@[i].lemma_is_series_map();
        }
    }

    /// What a lookup by `find` tells about the map.
    proof fn lemma_lookup(&self, k: int, found: bool, key: Seq<char>)
        requires
            self.wf(),
            0 <= k <= self.key_seq().len(),
            forall|i: int| 0 <= i < k ==> key_less(#[trigger] self.key_seq()[i], key),
            forall|i: int| k <= i < self.key_seq().len() ==> key_less(key, #[trigger] self.key_seq()[i]) || (i
                == k && found),
            found <==> (k < self.key_seq().len() && self.key_seq()[k] == key),
        ensures
            found <==> self@.dom().contains(key),
            found ==> self@[key] == self.series@[k]@,
    {
        let ks = self.key_seq();
        if found {
            lemma_assoc_at(ks, self.val_seq(), k);
        } else if has_entry(ks, key) {
            let j = choose|j: int| 0 <= j < ks.len() && ks[j] == key;
            if j < k {
                assert(key_less(ks[j], key));
            } else {
                assert(key_less(key, ks[j]));
            }
            lemma_key_less_irreflexive(key);
        }
    }
}

impl<V: Copy> View for Store<V> {
    type V = Map<Seq<char>, Map<u64, Seq<DataPoint<V>>>>;

    /// The store as a map from series key to that series' partition map.
    closed spec fn view(&self) -> Map<Seq<char>, Map<u64, Seq<DataPoint<V>>>> {
        assoc_map(self.key_seq(), self.val_seq())
    }
}

} // verus!
