use vstd::prelude::*;

verus! {

/// Notes a call made at `now` to a debounced function: the time of the last
/// call becomes `now`. Returns whether this call starts a new cycle, which
/// is so when no cycle was running.
pub fn record_call(last_call: &mut Option<i64>, now: i64) -> (starts_cycle: bool)
    ensures
        *final(last_call) == Some(now),
        starts_cycle == old(last_call).is_none(),
{
    let starts = last_call.is_none();
    *last_call = Some(now);
    starts
}

/// How much longer a cycle waits before it calls the function: `None` once
/// `debounce` milliseconds have passed since the last call, else the
/// milliseconds still to wait.
pub fn remaining_wait(debounce: i64, last_call: i64, now: i64) -> (r: Option<u64>)
    ensures
        r is None <==> debounce - (now - last_call) <= 0,
        r matches Some(w) ==> w == if debounce - (now - last_call) > u64::MAX {
            u64::MAX as int
        } else {
            debounce - (now - last_call)
        },
{
    let remaining: i128 = debounce as i128 - (now as i128 - last_call as i128);
    if remaining <= 0 {
        None
    } else if remaining > u64::MAX as i128 {
        Some(u64::MAX)
    } else {
        Some(remaining as u64)
    }
}

} // verus!
