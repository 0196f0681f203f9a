//! Retention policy: pure decisions about which partitions have expired.
use vstd::prelude::*;

verus! {

/// The oldest timestamp still retained: `now - horizon`, or zero when the
/// horizon reaches back past the start of time.
pub open spec fn cutoff_spec(now: u64, horizon: u64) -> u64 {
    if horizon <= now { (now - horizon) as u64 } else { 0 }
}

/// A partition spanning `[start, start + size)` has expired when its end,
/// saturated at `u64::MAX`, is at or before the cutoff.
pub open spec fn is_expired_spec(start: u64, size: u64, cutoff: u64) -> bool {
    let end: int = if start + size <= u64::MAX { start + size } else { u64::MAX as int };
    end <= cutoff
}

/// The oldest timestamp still retained, given the current logical time and a
/// retention horizon. Saturates at zero.
pub fn cutoff(now: u64, horizon: u64) -> (r: u64)
    ensures
        r == cutoff_spec(now, horizon),
        horizon <= now ==> r + horizon == now,
        horizon > now ==> r == 0,
{
    now.saturating_sub(horizon)
}

/// Whether a partition spanning `[start, start + size)` lies entirely before the
/// cutoff and may therefore be dropped.
pub fn is_expired(start: u64, size: u64, cutoff: u64) -> (r: bool)
    ensures
        r == is_expired_spec(start, size, cutoff),
        start + size <= u64::MAX ==> (r <==> start + size <= cutoff),
        start + size > u64::MAX ==> (r <==> cutoff == u64::MAX),
{
    start.saturating_add(size) <= cutoff
}

/// The cutoff lies exactly `horizon` ticks before `now`, or at the start of
/// time when the horizon reaches back past it: the horizon is never shortened.
pub proof fn lemma_cutoff_is_horizon_before_now(now: u64, horizon: u64)
    ensures
        horizon <= now ==> cutoff_spec(now, horizon) + horizon == now,
        horizon > now ==> cutoff_spec(now, horizon) == 0,
{
}

/// A partition of at least one tick has expired exactly when it lies
/// entirely before the cutoff, its last tick `start + size - 1` included,
/// whatever its width. One that runs past the end of time expires only at a
/// cutoff of `u64::MAX`.
pub proof fn lemma_expired_iff_entirely_before(start: u64, size: u64, cutoff: u64)
    requires
        size >= 1,
    ensures
        start + size <= u64::MAX ==> (is_expired_spec(start, size, cutoff) <==> start + size - 1 < cutoff),
        start + size > u64::MAX ==> (is_expired_spec(start, size, cutoff) <==> cutoff == u64::MAX),
{
}

} // verus!
