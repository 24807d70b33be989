//! Time as the cache sees it: whole milliseconds on a clock that it reads but
//! does not own.
use fake_clock::FakeClock;
use vstd::prelude::*;

verus! {

/// An entry last touched at `touched` is stale at `now`: its time to live ran
/// out before `now`. Without a time to live nothing is ever stale. This is the
/// one test of age in the cache: the sweep, the looks, the count and the walks
/// all decide by it.
pub open spec fn stale(touched: u64, ttl: Option<u64>, now: u64) -> bool {
    match ttl {
        Some(d) => touched + d < now,
        None => false,
    }
}

/// Decides [`stale`] without overflow.
pub fn is_stale(touched: u64, ttl: Option<u64>, now: u64) -> (r: bool)
    ensures
        r == stale(touched, ttl, now),
{
    match ttl {
        Some(d) => now > touched && now - touched > d,
        None => false,
    }
}

/// The clock's reading in milliseconds, from `FakeClock::time`. Nothing is
/// promised of it: the reading belongs to the thread's clock, which anyone may
/// set or advance between two calls.
#[verifier::external_body]
pub(crate) fn clock_millis() -> (now: u64) {
    FakeClock::time()
}

} // verus!
