//! Points in time, as milliseconds since the Unix epoch.
use vstd::prelude::*;

use std::time::{SystemTime, UNIX_EPOCH};
use vstd::std_specs::convert::FromSpecImpl;

verus! {

/// The system clock in milliseconds since the Unix epoch. What it returns
/// rests on the machine's clock, so nothing is stated of it.
#[verifier::external_body]
fn clock_now_ms() -> u64 {
    SystemTime::now().duration_since(UNIX_EPOCH).unwrap().as_millis() as u64
}

#[derive(Debug, Clone, Copy, PartialEq, Eq, Structural, PartialOrd, Ord)]
pub struct Instant(u64);

impl View for Instant {
    type V = u64;

    closed spec fn view(&self) -> u64 {
        self.0
    }
}

impl Instant {
    /// Sets the instant to the current time.
    pub fn set_now(&mut self) {
        self.0 = Self::now_ms();
    }

    /// Moves the instant `seconds` seconds later.
    pub fn add_seconds(&mut self, seconds: u64)
        requires
            old(self)@ + seconds * 1000 <= u64::MAX,
        ensures
            final(self)@ == old(self)@ + seconds * 1000,
    {
        self.0 = self.0 + seconds * 1000;
    }

    pub fn as_u64(&self) -> (ms: u64)
        ensures
            ms == self@,
    {
        self.0
    }

    /// The current time in milliseconds since the Unix epoch.
    pub fn now_ms() -> u64 {
        clock_now_ms()
    }

    /// The current time.
    pub fn now() -> Instant {
        Instant(Self::now_ms())
    }

    pub fn from_ms(ms: u64) -> (at: Instant)
        ensures
            at@ == ms,
    {
        Instant(ms)
    }
}

impl From<u64> for Instant {
    fn from(ms: u64) -> (at: Instant) {
        Instant(ms)
    }
}

impl FromSpecImpl<u64> for Instant {
    open spec fn obeys_from_spec() -> bool {
        true
    }

    open spec fn from_spec(ms: u64) -> Instant {
        Instant::from_ms_spec(ms)
    }
}

impl From<Instant> for u64 {
    fn from(at: Instant) -> (ms: u64) {
        at.0
    }
}

impl FromSpecImpl<Instant> for u64 {
    open spec fn obeys_from_spec() -> bool {
        true
    }

    open spec fn from_spec(at: Instant) -> u64 {
        at@
    }
}

impl Instant {
    pub closed spec fn from_ms_spec(ms: u64) -> Instant {
        Instant(ms)
    }

    /// An instant made from a number of milliseconds holds that number.
    pub proof fn lemma_from_ms(ms: u64)
        ensures
            Self::from_ms_spec(ms)@ == ms,
    {
    }
}

impl Default for Instant {
    /// The current time.
    fn default() -> Instant {
        Instant::now()
    }
}

} // verus!
