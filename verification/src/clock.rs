//! The time source of the keyspace: the system clock, or a time that a test
//! has frozen and moves by hand.

use std::time::{Duration, SystemTime, UNIX_EPOCH};
use vstd::prelude::*;

verus! {

/// `std::time::SystemTime`, a reading of the system clock. Nothing of its
/// inside is known here.
#[verifier::external_type_specification]
#[verifier::external_body]
pub struct ExSystemTime(std::time::SystemTime);

/// `SystemTime::now`: the system clock's reading, of which nothing is known
/// beforehand.
pub assume_specification[ SystemTime::now ]() -> SystemTime;

/// `Duration::as_millis`: the whole milliseconds in a duration. Nothing is
/// claimed of the number.
pub assume_specification[ Duration::as_millis ](duration: &Duration) -> u128;

/// `SystemTime::duration_since`, taken from the Unix epoch: the time elapsed
/// since then, or `None` for a reading that lies before it.
#[verifier::external_body]
fn since_unix_epoch(time: &SystemTime) -> Option<Duration> {
    match time.duration_since(UNIX_EPOCH) {
        Ok(elapsed) => Some(elapsed),
        Err(_) => None,
    }
}

/// A clock that reads milliseconds since the Unix epoch.
#[derive(Debug, Clone, Copy)]
pub struct Clock {
    mock_time: Option<u64>,
}

impl Clock {
    /// The time at which the clock is frozen, if it is.
    pub closed spec fn frozen_at(self) -> Option<u64> {
        self.mock_time
    }

    /// Whether the clock can read `now`: a frozen clock reads its frozen time
    /// and no other, a running clock may read any.
    pub open spec fn may_read(self, now: u64) -> bool {
        self.frozen_at() matches Some(time) ==> now == time
    }

    /// A clock that follows the system clock.
    pub fn new() -> (clock: Clock)
        ensures
            clock.frozen_at() is None,
    {
        Clock { mock_time: None }
    }

    /// The time in milliseconds since the Unix epoch: the frozen time, or the
    /// system clock's. A system clock set before the epoch reads 0.
    pub fn now(&self) -> (time: u64)
        ensures
            self.may_read(time),
    {
        match self.mock_time {
            Some(time) => time,
            None => {
                let reading = SystemTime::now();
                match since_unix_epoch(&reading) {
                    Some(elapsed) => {
                        let millis: u128 = elapsed.as_millis();
                        if millis > 0xffff_ffff_ffff_ffff {
                            0xffff_ffff_ffff_ffff
                        } else {
                            millis as u64
                        }
                    },
                    None => 0,
                }
            },
        }
    }

    /// Goes back to following the system clock.
    pub fn mock_disable(&mut self)
        ensures
            final(self).frozen_at() is None,
    {
        self.mock_time = None;
    }

    /// Freezes the clock at what it reads now.
    pub fn mock_freeze(&mut self)
        ensures
            final(self).frozen_at() is Some,
            old(self).frozen_at() is Some ==> final(self).frozen_at() == old(self).frozen_at(),
    {
        let time = self.now();
        self.mock_time = Some(time);
    }

    /// Moves the clock `millis` milliseconds on and freezes it there; a clock
    /// that was running starts from what it reads now. The time stops at the
    /// largest that the clock can read.
    pub fn mock_advance(&mut self, millis: u64)
        ensures
            final(self).frozen_at() is Some,
            old(self).frozen_at() matches Some(time) ==> final(self).frozen_at() == Some(
                if time + millis > u64::MAX {
                    u64::MAX
                } else {
                    (time + millis) as u64
                },
            ),
    {
        let time = self.now();
        let advanced: u64 = if millis > u64::MAX - time {
            u64::MAX
        } else {
            time + millis
        };
        self.mock_time = Some(advanced);
    }

    /// Freezes the clock at `epoch_millis`.
    pub fn mock_set_time(&mut self, epoch_millis: u64)
        ensures
            final(self).frozen_at() == Some(epoch_millis),
    {
        self.mock_time = Some(epoch_millis);
    }
}

} // verus!
