//! Time sources.
//!
//! Time is injected rather than read from the environment, so decay, timeouts
//! and identifier ordering can be driven by hand.

use vstd::prelude::*;

verus! {

/// Nanoseconds in a second.
pub const NANOS_PER_SEC: u64 = 1_000_000_000;

/// Nanoseconds in an hour.
pub const NANOS_PER_HOUR: u64 = 3_600_000_000_000;

/// A number held at the largest `u64`.
pub open spec fn saturated(n: int) -> u64 {
    if n > u64::MAX {
        u64::MAX
    } else {
        n as u64
    }
}

/// The product of `a` and `b`, held at the largest `u64`.
pub fn saturating_product(a: u64, b: u64) -> (r: u64)
    ensures
        r == saturated(a * b),
{
    match a.checked_mul(b) {
        Some(product) => product,
        None => u64::MAX,
    }
}

/// A source of wall-clock time.
pub trait Clock {
    /// Nanoseconds since the Unix epoch.
    fn now_ns(&self) -> u64;
}

/// The time since the Unix epoch in nanoseconds, or `None` where the host
/// clock stands before the epoch.
///
/// Reads `std::time::UNIX_EPOCH.elapsed()`. Nothing is claimed of the result:
/// it rests on the host's clock.
#[verifier::external_body]
fn nanos_since_epoch() -> (r: Option<u128>)
{
    match std::time::UNIX_EPOCH.elapsed() {
        Ok(elapsed) => Some(elapsed.as_nanos()),
        Err(_) => None,
    }
}

/// Whether a reading of the host clock gives this time since the epoch.
pub closed spec fn host_reads(reading: Option<u128>) -> bool {
    call_ensures(nanos_since_epoch, (), reading)
}

/// The instant for a reading of the host clock: a clock before the epoch reads
/// as the epoch, and one past the last instant as the last instant.
pub open spec fn instant(reading: Option<u128>) -> u64 {
    match reading {
        None => 0,
        Some(nanos) => saturated(nanos as int),
    }
}

/// Whether the host clock may read an instant.
pub open spec fn host_tells(now_ns: u64) -> bool {
    exists|reading: Option<u128>| #[trigger] host_reads(reading) && now_ns == instant(reading)
}

/// Computes [`instant`].
pub fn instant_of(reading: Option<u128>) -> (r: u64)
    ensures
        r == instant(reading),
{
    match reading {
        None => 0,
        Some(nanos) => if nanos > u64::MAX as u128 {
            u64::MAX
        } else {
            nanos as u64
        },
    }
}

/// Clock backed by the host operating system.
#[derive(Clone, Copy, Debug)]
pub struct SystemClock;

impl Clock for SystemClock {
    /// The instant for what the host clock reads. Which reading that is rests
    /// on the host.
    fn now_ns(&self) -> (r: u64)
        ensures
            host_tells(r),
    {
        let reading = nanos_since_epoch();
        assert(host_reads(reading));
        instant_of(reading)
    }
}

/// A clock that is driven by hand.
#[derive(Debug)]
pub struct ManualClock {
    now_ns: u64,
}

impl View for ManualClock {
    type V = u64;

    closed spec fn view(&self) -> u64 {
        self.now_ns
    }
}

impl ManualClock {
    /// Start at a given instant.
    pub fn starting_at(now_ns: u64) -> (r: ManualClock)
        ensures
            r@ == now_ns,
    {
        ManualClock { now_ns }
    }

    /// Move the clock forward. Past the last instant it wraps around.
    pub fn advance_ns(&mut self, delta_ns: u64)
        ensures
            final(self)@ == (old(self)@ + delta_ns) % 0x1_0000_0000_0000_0000,
            old(self)@ + delta_ns <= u64::MAX ==> final(self)@ == old(self)@ + delta_ns,
    {
        self.now_ns = self.now_ns.wrapping_add(delta_ns);
    }

    /// Move the clock forward by whole seconds, as far as nanoseconds go.
    pub fn advance_secs(&mut self, secs: u64)
        ensures
            final(self)@ == (old(self)@ + saturated(secs * NANOS_PER_SEC)) % 0x1_0000_0000_0000_0000,
            old(self)@ + secs * 1_000_000_000 <= u64::MAX ==> final(self)@ == old(self)@ + secs
                * 1_000_000_000,
    {
        self.advance_ns(saturating_product(secs, NANOS_PER_SEC));
    }

    /// Move the clock forward by whole hours, as far as seconds go.
    pub fn advance_hours(&mut self, hours: u64)
        ensures
            final(self)@ == (old(self)@ + saturated(saturated(hours * 3_600) * NANOS_PER_SEC))
                % 0x1_0000_0000_0000_0000,
            old(self)@ + hours * 3_600_000_000_000 <= u64::MAX ==> final(self)@ == old(self)@ + hours
                * 3_600_000_000_000,
    {
        self.advance_secs(saturating_product(hours, 3_600));
    }
}

impl Clock for ManualClock {
    fn now_ns(&self) -> (r: u64)
        ensures
            r == self@,
    {
        self.now_ns
    }
}

} // verus!
