//! A cooldown that keeps an action from running too frequently. Time is a
//! millisecond timestamp; only `is_open` reads the clock itself.

use crate::duration::Duration;
use vstd::prelude::*;

verus! {

/// Relies on std::time::SystemTime: the clock's current reading as
/// milliseconds. Nothing is assumed of it: the clock may move arbitrarily
/// between calls.
#[verifier::external_body]
fn now_millis() -> u64 {
    match std::time::SystemTime::now().duration_since(std::time::UNIX_EPOCH) {
        Ok(d) => d.as_millis() as u64,
        Err(_) => 0,
    }
}

/// The time still to wait at `now`, given the last action was at `t` and
/// the cooldown spans `cd` milliseconds; zero when the action is allowed.
pub open spec fn remaining_at(t: u64, cd: u64, now: u64) -> int {
    let since: int = if now >= t {
        now - t
    } else {
        0
    };
    if since < cd {
        cd - since
    } else {
        0
    }
}

/// A cooldown: when the action last ran, and how long it must rest.
#[derive(Debug, Clone, Copy)]
pub struct Cooldown {
    /// When the action last ran, as a millisecond timestamp.
    pub last_action_at: Option<u64>,
    /// How long the action must rest between runs.
    pub cooldown: Duration,
}

impl Cooldown {
    /// A cooldown of the given span that has never fired.
    pub fn from_duration(duration: Duration) -> (r: Cooldown)
        ensures
            r.last_action_at is None,
            r.cooldown == duration,
    {
        Cooldown { last_action_at: None, cooldown: duration }
    }

    /// How much time remains until the cooldown is open at `now`: `None`
    /// when the action is allowed, the remaining rest otherwise.
    pub fn check(&mut self, now: u64) -> (r: Option<Duration>)
        ensures
            *final(self) == *old(self),
            ({
                match old(self).last_action_at {
                    None => r is None,
                    Some(t) => {
                        let rem = remaining_at(t, old(self).cooldown.millis, now);
                        if rem > 0 {
                            r matches Some(d) && d.millis == rem
                        } else {
                            r is None
                        }
                    },
                }
            }),
    {
        match self.last_action_at {
            None => None,
            Some(t) => {
                let since: u64 = if now >= t {
                    now - t
                } else {
                    0
                };
                if since < self.cooldown.as_millis() {
                    Some(Duration::from_millis(self.cooldown.as_millis() - since))
                } else {
                    None
                }
            },
        }
    }

    /// Record that the action ran at `now`.
    pub fn poke(&mut self, now: u64)
        ensures
            final(self).last_action_at == Some(now),
            final(self).cooldown == old(self).cooldown,
    {
        self.last_action_at = Some(now);
    }

    /// Whether the action may run now, reading the clock itself; a granted
    /// run is recorded at once. A cooldown that never fired always grants,
    /// and a refusal changes nothing.
    pub fn is_open(&mut self) -> (r: bool)
        ensures
            final(self).cooldown == old(self).cooldown,
            old(self).last_action_at is None ==> r,
            r ==> final(self).last_action_at is Some,
            !r ==> *final(self) == *old(self),
    {
        let now = now_millis();
        match self.check(now) {
            None => {
                self.poke(now);
                true
            },
            Some(_) => false,
        }
    }
}

} // verus!
