//! Stamps: the steady clock's reading, made strictly rising.

use vstd::prelude::*;

verus! {

/// The stamp of a record that arrives at clock reading `now` in a store
/// whose newest stamp is `newest`: the reading itself where it lies past the
/// newest stamp, else one tick past the newest stamp. There is none where the
/// newest stamp is the last that a `u64` holds.
pub open spec fn tick_after(newest: Option<u64>, now: u64) -> Option<u64> {
    match newest {
        None => Some(now),
        Some(last) => if last < now {
            Some(now)
        } else if last < u64::MAX {
            Some((last + 1) as u64)
        } else {
            None
        },
    }
}

/// Computes `tick_after`.
pub fn tick(newest: Option<u64>, now: u64) -> (stamp: Option<u64>)
    ensures
        stamp == tick_after(newest, now),
{
    match newest {
        None => Some(now),
        Some(last) => if last < now {
            Some(now)
        } else if last < u64::MAX {
            Some(last + 1)
        } else {
            None
        },
    }
}

/// A stamp made by `tick_after` lies strictly past the newest stamp and never
/// before the reading, and one is made unless the stamps are used up.
pub proof fn lemma_tick_rises(newest: Option<u64>, now: u64)
    ensures
        tick_after(newest, now) is None <==> newest == Some(u64::MAX),
        tick_after(newest, now) matches Some(stamp) ==> now <= stamp && (newest matches Some(last)
            ==> last < stamp),
{
}

/// `time::precise_time_ns`: the steady clock's reading in nanoseconds since
/// an epoch of the clock's own choosing. Nothing is claimed of the reading;
/// two readings may be equal, which is why stamps are made by `tick_after`.
#[verifier::external_body]
pub(crate) fn steady_nanos() -> u64 {
    time::precise_time_ns()
}

} // verus!
