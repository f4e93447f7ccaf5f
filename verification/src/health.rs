//! Per-backend health tracking with timed cool-off.
//!
//! A backend accumulates errors; once the count reaches the configured
//! limit the backend enters cool-off until a deadline.  While cooling the
//! backend reports unhealthy; the first probe at or past the deadline
//! resets the error count, leaves cool-off and reports healthy again.
//! Every transition into or out of cool-off bumps an epoch counter so
//! that readers can detect stale health decisions.
//!
//! Time is handed in by the caller as a millisecond instant, so the whole
//! state machine is deterministic and verified for every clock reading.

use vstd::prelude::*;

verus! {

/// `e + 1`, stopping at the top of `u64` instead of wrapping.
pub open spec fn sat_inc(e: u64) -> u64 {
    if e == u64::MAX { u64::MAX } else { (e + 1) as u64 }
}

/// `base + delta`, stopping at the top of `u64` instead of wrapping.
pub open spec fn sat_add(base: u64, delta: u64) -> u64 {
    if base + delta <= u64::MAX { (base + delta) as u64 } else { u64::MAX }
}

/// `c + 1`, stopping at the top of `usize` instead of wrapping.
pub open spec fn sat_inc_usize(c: usize) -> usize {
    if c == usize::MAX { usize::MAX } else { (c + 1) as usize }
}

/// Health state of one backend.
pub struct BackendHealth {
    /// Whether cool-off is tracked at all; when false the backend is
    /// always healthy and errors are ignored.
    pub cooloff_enabled: bool,
    /// How long one cool-off lasts, in milliseconds.
    pub cooloff_period_ms: u64,
    /// The error count at which cool-off begins.
    pub error_limit: usize,
    /// Errors recorded since the last reset.
    pub error_count: usize,
    /// Whether the backend is currently cooling.
    pub in_cooloff: bool,
    /// Bumped on every transition into or out of cool-off.
    pub epoch: u64,
    /// The instant (milliseconds) at which the current cool-off ends.
    pub cooloff_done_at: u64,
}

impl BackendHealth {
    /// True while the tracked state is within its machine bounds.
    ///
    /// The error count keeps rising while the backend cools, so
    /// cooling holds exactly when the count has reached the limit;
    /// and below the counter's saturation point the epoch is odd
    /// exactly while cooling, since it is bumped once on every
    /// transition in and once on every transition out.
    pub open spec fn wf(self) -> bool {
        &&& self.error_limit >= 1
        &&& (self.error_count >= self.error_limit <==> self.in_cooloff)
        &&& (!self.cooloff_enabled ==> !self.in_cooloff && self.error_count == 0)
        &&& (self.epoch < u64::MAX ==> (self.in_cooloff <==> self.epoch % 2 == 1))
    }

    /// What `is_healthy` answers for a given clock reading, without the
    /// state reset it performs on expiry.
    pub open spec fn spec_is_healthy(self, now: u64) -> bool {
        !self.cooloff_enabled || !self.in_cooloff || now >= self.cooloff_done_at
    }

    /// The state a probe at `now` leaves behind: unchanged, except
    /// that an expired cool-off is cleared and counted.
    pub open spec fn spec_after_probe(self, now: u64) -> BackendHealth {
        if self.cooloff_enabled && self.in_cooloff && now >= self.cooloff_done_at {
            BackendHealth {
                error_count: 0,
                in_cooloff: false,
                epoch: sat_inc(self.epoch),
                ..self
            }
        } else {
            self
        }
    }

    /// The state one recorded error leaves behind: the count up by
    /// one (always, while enabled), entering cool-off with a fresh
    /// deadline when the count reaches the limit.  A backend already
    /// cooling keeps counting but is neither epoch-bumped nor
    /// re-armed.
    pub open spec fn spec_after_error(self, now: u64) -> BackendHealth {
        if !self.cooloff_enabled {
            self
        } else if self.in_cooloff {
            BackendHealth { error_count: sat_inc_usize(self.error_count), ..self }
        } else if self.error_count + 1 < self.error_limit {
            BackendHealth { error_count: (self.error_count + 1) as usize, ..self }
        } else {
            BackendHealth {
                error_count: (self.error_count + 1) as usize,
                in_cooloff: true,
                epoch: sat_inc(self.epoch),
                cooloff_done_at: sat_add(now, self.cooloff_period_ms),
                ..self
            }
        }
    }

    /// A fresh tracker: no errors, not cooling.
    ///
    /// `error_limit` is the number of errors that triggers cool-off and
    /// `cooloff_period_ms` how long the cool-off lasts; a limit of zero is
    /// rounded up to one so the machine always needs at least one error.
    pub fn new(cooloff_enabled: bool, cooloff_period_ms: u64, error_limit: usize) -> (r: BackendHealth)
        ensures
            r.wf(),
            !r.in_cooloff,
            r.error_count == 0,
            r.epoch == 0,
            r.cooloff_enabled == cooloff_enabled,
            r.cooloff_period_ms == cooloff_period_ms,
            r.error_limit == if error_limit == 0 { 1usize } else { error_limit },
    {
        BackendHealth {
            cooloff_enabled,
            cooloff_period_ms,
            error_limit: if error_limit == 0 { 1 } else { error_limit },
            error_count: 0,
            in_cooloff: false,
            epoch: 0,
            cooloff_done_at: 0,
        }
    }

    /// Health probe at clock reading `now` (milliseconds).
    ///
    /// Healthy means: cool-off disabled, not cooling, or the cool-off
    /// deadline has passed.  An expired cool-off is cleared on the spot:
    /// the error count resets to zero and the epoch is bumped, exactly
    /// once, by the first probe at or past the deadline.
    pub fn is_healthy(&mut self, now: u64) -> (r: bool)
        requires
            old(self).wf(),
        ensures
            final(self).wf(),
            r == old(self).spec_is_healthy(now),
            *final(self) == old(self).spec_after_probe(now),
            // while cooling and before the deadline, nothing changes
            old(self).cooloff_enabled && old(self).in_cooloff && now < old(self).cooloff_done_at
                ==> *final(self) == *old(self),
            // an expired cool-off resets the error count exactly once
            old(self).cooloff_enabled && old(self).in_cooloff && now >= old(self).cooloff_done_at
                ==> !final(self).in_cooloff
                    && final(self).error_count == 0
                    && final(self).epoch == sat_inc(old(self).epoch)
                    && final(self).cooloff_enabled == old(self).cooloff_enabled
                    && final(self).error_limit == old(self).error_limit
                    && final(self).cooloff_period_ms == old(self).cooloff_period_ms,
            !(old(self).cooloff_enabled && old(self).in_cooloff) ==> *final(self) == *old(self),
    {
        if !self.cooloff_enabled || !self.in_cooloff {
            return true;
        }

        if now >= self.cooloff_done_at {
            self.error_count = 0;
            self.in_cooloff = false;
            if self.epoch < u64::MAX {
                self.epoch = self.epoch + 1;
            }
            return true;
        }

        false
    }

    /// The number of cool-off transitions seen so far.
    pub fn epoch(&self) -> (r: u64)
        ensures
            r == self.epoch,
    {
        self.epoch
    }

    /// Record one error observed against this backend at clock reading
    /// `now`.
    ///
    /// With cool-off disabled this is a no-op.  Otherwise the error
    /// count rises by one on every call (saturating at the machine
    /// bound); when it reaches the limit while not already cooling,
    /// the backend enters cool-off with its deadline one period past
    /// `now` and the epoch is bumped.  A backend already cooling
    /// keeps counting, but its deadline and epoch stay put: the
    /// transition happens only on entry.
    pub fn increment_error(&mut self, now: u64)
        requires
            old(self).wf(),
        ensures
            final(self).wf(),
            *final(self) == old(self).spec_after_error(now),
            !old(self).cooloff_enabled ==> *final(self) == *old(self),
            old(self).cooloff_enabled && !old(self).in_cooloff && old(self).error_count + 1 < old(
                self,
            ).error_limit ==> *final(self) == (BackendHealth {
                error_count: (old(self).error_count + 1) as usize,
                ..*old(self)
            }),
            old(self).cooloff_enabled && old(self).error_count + 1 >= old(self).error_limit
                && !old(self).in_cooloff
                ==> final(self).in_cooloff
                    && final(self).error_count == old(self).error_count + 1
                    && final(self).epoch == sat_inc(old(self).epoch)
                    && final(self).cooloff_done_at == sat_add(now, old(self).cooloff_period_ms)
                    && final(self).cooloff_enabled == old(self).cooloff_enabled
                    && final(self).error_limit == old(self).error_limit
                    && final(self).cooloff_period_ms == old(self).cooloff_period_ms,
            old(self).cooloff_enabled && old(self).in_cooloff
                ==> *final(self) == (BackendHealth {
                    error_count: sat_inc_usize(old(self).error_count),
                    ..*old(self)
                }),
    {
        if !self.cooloff_enabled {
            return;
        }

        if self.error_count < usize::MAX {
            self.error_count = self.error_count + 1;
        }

        if self.error_count >= self.error_limit && !self.in_cooloff {
            self.in_cooloff = true;
            if self.epoch < u64::MAX {
                self.epoch = self.epoch + 1;
            }
            self.cooloff_done_at = if now <= u64::MAX - self.cooloff_period_ms {
                now + self.cooloff_period_ms
            } else {
                u64::MAX
            };
        }
    }
}

/// While a backend is cooling and the clock has not reached the deadline,
/// `is_healthy` answers a stable `false`: probing at any such instant
/// gives the same answer, and with cool-off enabled that answer is
/// `false`.
pub proof fn lemma_cooloff_monotonic(h: BackendHealth, now1: u64, now2: u64)
    requires
        h.wf(),
        h.in_cooloff,
        now1 < h.cooloff_done_at,
        now2 < h.cooloff_done_at,
    ensures
        h.cooloff_enabled ==> !h.spec_is_healthy(now1),
        h.spec_is_healthy(now1) == h.spec_is_healthy(now2),
{
}

} // verus!
