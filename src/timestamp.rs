use vstd::prelude::*;

verus! {

/// Nanoseconds in one second.
pub const NANOS_PER_SEC: u64 = 1_000_000_000;

/// A point in time as seconds and nanoseconds since the Unix epoch.
#[derive(Clone, Copy, Debug, PartialEq, Eq, Structural)]
pub struct Timestamp {
    pub secs: u64,
    pub nanos: u32,
}

impl Timestamp {
    /// The instant as a count of nanoseconds since the epoch.
    pub open spec fn total_nanos(self) -> int {
        self.secs * NANOS_PER_SEC + self.nanos
    }

    pub fn new(secs: u64, nanos: u32) -> (r: Timestamp)
        ensures
            r.secs == secs,
            r.nanos == nanos,
    {
        Timestamp { secs, nanos }
    }

    fn as_nanos(self) -> (r: u128)
        ensures
            r == self.total_nanos(),
    {
        assert(self.secs * NANOS_PER_SEC <= u64::MAX * NANOS_PER_SEC) by (nonlinear_arith);
        self.secs as u128 * NANOS_PER_SEC as u128 + self.nanos as u128
    }
}

/// The current wall-clock time, or `None` when the clock reads before the epoch.
/// Relies on `SystemTime::now` and `SystemTime::duration_since`, and on
/// `Duration::subsec_nanos` being below one second.
#[verifier::external_body]
fn clock_since_epoch() -> (r: Option<(u64, u32)>)
    ensures
        match r {
            Some((_, nanos)) => nanos < NANOS_PER_SEC,
            None => true,
        },
{
    match std::time::SystemTime::now().duration_since(std::time::UNIX_EPOCH) {
        Ok(d) => Some((d.as_secs(), d.subsec_nanos())),
        Err(_) => None,
    }
}

/// The current time; a clock set before the epoch reads as the epoch itself.
pub fn now() -> (r: Timestamp)
    ensures
        r.nanos < NANOS_PER_SEC,
{
    match clock_since_epoch() {
        Some((secs, nanos)) => Timestamp { secs, nanos },
        None => Timestamp { secs: 0, nanos: 0 },
    }
}

/// Whether more than `threshold_secs` seconds separate `old` from `new`.
/// A `new` that lies before `old` (a clock that went backward) is never stale.
pub open spec fn stale(old: Timestamp, new: Timestamp, threshold_secs: u64) -> bool {
    new.total_nanos() - old.total_nanos() > threshold_secs * NANOS_PER_SEC
}

pub fn is_stale(old: Timestamp, new: Timestamp, threshold_secs: u64) -> (r: bool)
    ensures
        r == stale(old, new, threshold_secs),
{
    let o = old.as_nanos();
    let n = new.as_nanos();
    if n <= o {
        return false;
    }
    assert(threshold_secs * NANOS_PER_SEC <= u64::MAX * NANOS_PER_SEC) by (nonlinear_arith);
    n - o > threshold_secs as u128 * NANOS_PER_SEC as u128
}

/// Two instants exactly `threshold_secs + 1` seconds apart are stale.
pub proof fn lemma_one_second_past_threshold_is_stale(old: Timestamp, threshold_secs: u64)
    ensures
        forall|new: Timestamp|
            new.secs == old.secs + threshold_secs + 1 && new.nanos == old.nanos ==> #[trigger] stale(
                old,
                new,
                threshold_secs,
            ),
{
    assert forall|new: Timestamp|
        new.secs == old.secs + threshold_secs + 1 && new.nanos == old.nanos implies #[trigger] stale(
            old,
            new,
            threshold_secs,
        ) by {
        assert(new.secs * NANOS_PER_SEC == old.secs * NANOS_PER_SEC + threshold_secs * NANOS_PER_SEC
            + NANOS_PER_SEC) by (nonlinear_arith)
            requires
                new.secs == old.secs + threshold_secs + 1,
        ;
    }
}

} // verus!
