//! GPU pass timing bookkeeping: which timestamp queries a pass writes, how
//! many queries a frame resolves, and the tick count of each pass read
//! back from the resolved timestamps.
//!
//! Pass `i` writes its start timestamp to query `2 * i` and its end
//! timestamp to query `2 * i + 1`; passes at or beyond the profiler's pass
//! limit are not timed.

use vstd::prelude::*;

verus! {

/// Number of passes a profiler times by default.
pub const DEFAULT_MAX_PASSES: u32 = 128;

/// The start and end query indices of pass `pass_index`, or `None` when
/// the pass is beyond the limit and is not timed.
pub fn pass_query_indices(pass_index: u32, max_passes: u32) -> (r: Option<(u32, u32)>)
    requires
        max_passes * 2 <= u32::MAX,
    ensures
        pass_index >= max_passes ==> r is None,
        pass_index < max_passes ==> r == Some(((2 * pass_index) as u32, (2 * pass_index + 1) as u32)),
{
    if pass_index >= max_passes {
        None
    } else {
        Some((pass_index * 2, pass_index * 2 + 1))
    }
}

/// Number of timestamp queries resolved for a frame of `pass_count`
/// passes: two per pass, saturating, and at most two per timed pass.
pub fn resolved_query_count(pass_count: u32, max_passes: u32) -> (r: u32)
    requires
        max_passes * 2 <= u32::MAX,
    ensures
        r == (if 2 * pass_count < 2 * max_passes {
            2 * pass_count
        } else {
            2 * max_passes
        }),
{
    let wanted: u32 = if pass_count > u32::MAX / 2 {
        u32::MAX
    } else {
        pass_count * 2
    };
    let limit = max_passes * 2;
    if wanted < limit {
        wanted
    } else {
        limit
    }
}

/// The start tick of pass `i`: its start timestamp, or zero when it was
/// not read back.
pub open spec fn pass_start(ts: Seq<u64>, i: int) -> u64 {
    if 2 * i < ts.len() {
        ts[2 * i]
    } else {
        0
    }
}

/// The end tick of pass `i`: its end timestamp, or its start tick when it
/// was not read back.
pub open spec fn pass_end(ts: Seq<u64>, i: int) -> u64 {
    if 2 * i + 1 < ts.len() {
        ts[2 * i + 1]
    } else {
        pass_start(ts, i)
    }
}

/// The ticks spent in pass `i`: end minus start, or zero when the end lies
/// before the start.
pub open spec fn pass_ticks(ts: Seq<u64>, i: int) -> u64 {
    if pass_end(ts, i) >= pass_start(ts, i) {
        (pass_end(ts, i) - pass_start(ts, i)) as u64
    } else {
        0
    }
}

/// The ticks of each of `pass_count` passes, read from the resolved
/// timestamps.
pub fn pass_tick_deltas(timestamps: &Vec<u64>, pass_count: usize) -> (r: Vec<u64>)
    requires
        2 * pass_count + 1 <= usize::MAX,
    ensures
        r@.len() == pass_count,
        forall|i: int| 0 <= i < pass_count ==> #[trigger] r@[i] == pass_ticks(timestamps@, i),
{
    let mut out: Vec<u64> = Vec::new();
    let mut i: usize = 0;
    while i < pass_count
        invariant
            i <= pass_count,
            2 * pass_count + 1 <= usize::MAX,
            out@.len() == i,
            forall|j: int| 0 <= j < i ==> #[trigger] out@[j] == pass_ticks(timestamps@, j),
        decreases pass_count - i,
    {
        let start: u64 = if 2 * i < timestamps.len() {
            timestamps[2 * i]
        } else {
            0
        };
        let end: u64 = if 2 * i + 1 < timestamps.len() {
            timestamps[2 * i + 1]
        } else {
            start
        };
        out.push(end.saturating_sub(start));
        i = i + 1;
    }
    out
}

} // verus!
