//! Status indication: whether and when the provisioning indicator should
//! blink.
//!
//! The caller supplies the current time in milliseconds; the indicator
//! decides, deterministically, whether enough time has passed since the
//! last blink.

use vstd::prelude::*;

verus! {

/// Milliseconds between blinks while blinking is on.
pub const STATUS_BLINK_RATE: u64 = 500;

/// Decides when the provisioning indicator blinks.
pub struct StatusIndicator {
    /// How frequently to blink, if at all.
    blink_interval: Option<u64>,
    /// When the indicator last blinked, in milliseconds.
    last_blinked: u64,
}

impl StatusIndicator {
    /// The configured interval, for contracts.
    pub closed spec fn interval(self) -> Option<u64> {
        self.blink_interval
    }

    /// The time of the last blink, for contracts.
    pub closed spec fn last(self) -> u64 {
        self.last_blinked
    }

    /// A new indicator, blinking or steady, that last blinked now.
    pub fn new(blinking: bool, now_ms: u64) -> (r: StatusIndicator)
        ensures
            r.interval() == if blinking {
                Some(STATUS_BLINK_RATE)
            } else {
                None::<u64>
            },
            r.last() == now_ms,
    {
        let blink_interval = if blinking {
            Some(STATUS_BLINK_RATE)
        } else {
            None
        };
        StatusIndicator { blink_interval, last_blinked: now_ms }
    }

    /// Set whether or not the indicator should blink.
    pub fn set_blink(&mut self, blinking: bool)
        ensures
            final(self).interval() == if blinking {
                Some(STATUS_BLINK_RATE)
            } else {
                None::<u64>
            },
            final(self).last() == old(self).last(),
    {
        self.blink_interval = if blinking {
            Some(STATUS_BLINK_RATE)
        } else {
            None
        };
    }

    /// Blink now?  True exactly when blinking is on and at least the
    /// configured interval has passed since the last blink; a blink resets
    /// the clock.
    pub fn should_blink(&mut self, now_ms: u64) -> (r: bool)
        ensures
            r == match old(self).interval() {
                Some(iv) => now_ms >= old(self).last() && now_ms - old(self).last() >= iv,
                None => false,
            },
            final(self).interval() == old(self).interval(),
            final(self).last() == if r {
                now_ms
            } else {
                old(self).last()
            },
    {
        match self.blink_interval {
            Some(iv) => {
                if now_ms >= self.last_blinked && now_ms - self.last_blinked >= iv {
                    self.last_blinked = now_ms;
                    true
                } else {
                    false
                }
            },
            None => false,
        }
    }
}

} // verus!
