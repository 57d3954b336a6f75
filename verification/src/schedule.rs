//! When the daemon does what. Times are nanoseconds on a clock that never goes back.

use vstd::prelude::*;

verus! {

pub const OBSERVATION_INTERVAL: u64 = 2_000_000_000;

pub const CAPTURE_INTERVAL: u64 = 2_000_000_000;

pub const HEARTBEAT_INTERVAL: u64 = 10_000_000_000;

pub const HEARTBEAT_RETRY_INTERVAL: u64 = 1_000_000_000;

pub const MAINTENANCE_INTERVAL: u64 = 1_000_000_000;

pub const EVENT_COALESCE_INTERVAL: u64 = 50_000_000;

/// The longest of the intervals.
pub const LONGEST_INTERVAL: u64 = 10_000_000_000;

/// Deadlines of the daemon's loop.
#[derive(Debug, Clone, Copy, PartialEq, Eq, Structural)]
pub struct Scheduler {
    pub next_observation: u64,
    pub next_capture: u64,
    pub next_heartbeat: u64,
    pub next_maintenance: u64,
    pub event_observation: Option<u64>,
}

/// The first of `deadline`, `deadline + interval`, ... that lies after `now`.
pub open spec fn next_after(deadline: int, interval: int, now: int) -> int {
    if deadline > now {
        deadline
    } else {
        now - (now - deadline) % interval + interval
    }
}

/// What `next_after` says: a whole number of intervals later, after `now`, and no later than it
/// must be.
pub proof fn law_deadlines_keep_their_rhythm(deadline: int, interval: int, now: int)
    requires
        interval > 0,
    ensures
        next_after(deadline, interval, now) > now,
        deadline <= next_after(deadline, interval, now),
        (next_after(deadline, interval, now) - deadline) % interval == 0,
        deadline <= now ==> next_after(deadline, interval, now) <= now + interval,
{
    if deadline <= now {
        let d = now - deadline;
        vstd::arithmetic::div_mod::lemma_fundamental_div_mod(d, interval);
        let r = next_after(deadline, interval, now);
        assert(r - deadline == interval * (d / interval + 1)) by {
            vstd::arithmetic::mul::lemma_mul_is_distributive_add(interval, d / interval, 1);
        }
        vstd::arithmetic::div_mod::lemma_mod_multiples_basic(d / interval + 1, interval);
        vstd::arithmetic::mul::lemma_mul_is_commutative(interval, d / interval + 1);
        vstd::arithmetic::div_mod::lemma_mod_bound(d, interval);
    } else {
        assert(0int % interval == 0) by {
            vstd::arithmetic::div_mod::lemma_mod_self_0(interval);
            vstd::arithmetic::div_mod::lemma_small_mod(0, interval as nat);
        }
    }
}

/// Moves a deadline past `now`, keeping its rhythm.
pub fn advance_deadline(deadline: &mut u64, interval: u64, now: u64)
    requires
        interval > 0,
        now + interval <= u64::MAX,
    ensures
        *final(deadline) == next_after(*old(deadline) as int, interval as int, now as int),
{
    if *deadline <= now {
        let late: u64 = (now - *deadline) % interval;
        proof {
            vstd::arithmetic::div_mod::lemma_mod_bound(now - *deadline, interval as int);
            vstd::arithmetic::div_mod::lemma_mod_decreases((now - *deadline) as nat, interval as nat);
        }
        *deadline = now - late + interval;
    }
}

/// The earlier of two times.
pub open spec fn earlier(a: u64, b: u64) -> u64 {
    if a <= b {
        a
    } else {
        b
    }
}

fn earlier_of(a: u64, b: u64) -> (r: u64)
    ensures
        r == earlier(a, b),
{
    if a <= b {
        a
    } else {
        b
    }
}

impl Scheduler {
    /// The next time that anything is due.
    pub open spec fn next(&self) -> u64 {
        let planned = earlier(
            earlier(self.next_observation, self.next_capture),
            earlier(self.next_heartbeat, self.next_maintenance),
        );
        match self.event_observation {
            Some(t) => earlier(planned, t),
            None => planned,
        }
    }

    /// The deadlines to begin with.
    pub open spec fn begun(now: u64) -> Scheduler {
        Scheduler {
            next_observation: now,
            next_capture: now,
            next_heartbeat: (now + HEARTBEAT_INTERVAL) as u64,
            next_maintenance: (now + MAINTENANCE_INTERVAL) as u64,
            event_observation: None,
        }
    }

    /// The deadlines once an event was told.
    pub open spec fn told(&self, now: u64) -> Scheduler {
        Scheduler {
            event_observation: match self.event_observation {
                Some(t) => Some(t),
                None => Some((now + EVENT_COALESCE_INTERVAL) as u64),
            },
            ..*self
        }
    }

    /// The deadlines after an observation.
    pub open spec fn observed(&self, now: u64) -> Scheduler {
        Scheduler {
            next_observation: next_after(self.next_observation as int, OBSERVATION_INTERVAL as int, now as int) as u64,
            event_observation: None,
            ..*self
        }
    }

    /// The deadlines after a capture.
    pub open spec fn captured(&self, now: u64) -> Scheduler {
        Scheduler {
            next_capture: next_after(self.next_capture as int, CAPTURE_INTERVAL as int, now as int) as u64,
            ..*self
        }
    }

    /// The deadlines after a heartbeat.
    pub open spec fn beaten(&self, now: u64, success: bool) -> Scheduler {
        Scheduler {
            next_heartbeat: (now + (if success {
                HEARTBEAT_INTERVAL
            } else {
                HEARTBEAT_RETRY_INTERVAL
            })) as u64,
            ..*self
        }
    }

    /// The deadlines after maintenance.
    pub open spec fn maintained(&self, now: u64) -> Scheduler {
        Scheduler {
            next_maintenance: next_after(self.next_maintenance as int, MAINTENANCE_INTERVAL as int, now as int) as u64,
            ..*self
        }
    }

    pub fn new(now: u64) -> (r: Self)
        requires
            now + LONGEST_INTERVAL <= u64::MAX,
        ensures
            r == Scheduler::begun(now),
    {
        Scheduler {
            next_observation: now,
            next_capture: now,
            next_heartbeat: now + HEARTBEAT_INTERVAL,
            next_maintenance: now + MAINTENANCE_INTERVAL,
            event_observation: None,
        }
    }

    /// Plans an observation after an event. Events close together share one.
    pub fn notify_tmux_event(&mut self, now: u64)
        requires
            now + LONGEST_INTERVAL <= u64::MAX,
        ensures
            *final(self) == old(self).told(now),
    {
        if self.event_observation.is_none() {
            self.event_observation = Some(now + EVENT_COALESCE_INTERVAL);
        }
    }

    pub open spec fn observes(&self, now: u64) -> bool {
        self.next_observation <= now || (self.event_observation matches Some(t) && t <= now)
    }

    pub fn observation_due(&self, now: u64) -> (r: bool)
        ensures
            r == self.observes(now),
    {
        self.next_observation <= now || match self.event_observation {
            Some(t) => t <= now,
            None => false,
        }
    }

    /// An observation answers all events so far. Only one in its own turn moves the next turn.
    pub fn finish_observation(&mut self, now: u64)
        requires
            now + LONGEST_INTERVAL <= u64::MAX,
        ensures
            *final(self) == old(self).observed(now),
    {
        let mut next: u64 = self.next_observation;
        advance_deadline(&mut next, OBSERVATION_INTERVAL, now);
        self.next_observation = next;
        self.event_observation = None;
    }

    pub fn capture_due(&self, now: u64) -> (r: bool)
        ensures
            r == (self.next_capture <= now),
    {
        self.next_capture <= now
    }

    pub fn finish_capture(&mut self, now: u64)
        requires
            now + LONGEST_INTERVAL <= u64::MAX,
        ensures
            *final(self) == old(self).captured(now),
    {
        let mut next: u64 = self.next_capture;
        advance_deadline(&mut next, CAPTURE_INTERVAL, now);
        self.next_capture = next;
    }

    pub fn heartbeat_due(&self, now: u64) -> (r: bool)
        ensures
            r == (self.next_heartbeat <= now),
    {
        self.next_heartbeat <= now
    }

    /// A heartbeat that failed is tried again sooner.
    pub fn finish_heartbeat(&mut self, now: u64, success: bool)
        requires
            now + LONGEST_INTERVAL <= u64::MAX,
        ensures
            *final(self) == old(self).beaten(now, success),
    {
        self.next_heartbeat = now + if success {
            HEARTBEAT_INTERVAL
        } else {
            HEARTBEAT_RETRY_INTERVAL
        };
    }

    pub fn maintenance_due(&self, now: u64) -> (r: bool)
        ensures
            r == (self.next_maintenance <= now),
    {
        self.next_maintenance <= now
    }

    pub fn finish_maintenance(&mut self, now: u64)
        requires
            now + LONGEST_INTERVAL <= u64::MAX,
        ensures
            *final(self) == old(self).maintained(now),
    {
        let mut next: u64 = self.next_maintenance;
        advance_deadline(&mut next, MAINTENANCE_INTERVAL, now);
        self.next_maintenance = next;
    }

    /// How long until anything is due.
    pub fn wait(&self, now: u64) -> (r: u64)
        ensures
            r == (if self.next() > now {
                self.next() - now
            } else {
                0
            }),
    {
        let planned = earlier_of(
            earlier_of(self.next_observation, self.next_capture),
            earlier_of(self.next_heartbeat, self.next_maintenance),
        );
        let next = match self.event_observation {
            Some(t) => earlier_of(planned, t),
            None => planned,
        };
        next.saturating_sub(now)
    }
}

/// The daemon sleeps only while nothing is due, and what is due is served by the time it wakes.
pub proof fn law_waiting_misses_nothing(s: Scheduler, now: u64)
    ensures
        s.next() <= now <==> (s.observes(now) || s.next_capture <= now || s.next_heartbeat <= now || s.next_maintenance
            <= now),
{
}

/// An event is observed no later than the coalescing interval after it, however many events follow,
/// and an observation leaves nothing due.
pub proof fn law_events_are_observed_soon(s: Scheduler, event: u64, now: u64)
    requires
        event + LONGEST_INTERVAL <= u64::MAX,
        now + LONGEST_INTERVAL <= u64::MAX,
        s.event_observation is None,
        event + EVENT_COALESCE_INTERVAL <= now,
    ensures
        ({
            let told = Scheduler { event_observation: Some((event + EVENT_COALESCE_INTERVAL) as u64), ..s };
            told.observes(now)
        }),
        ({
            let done = Scheduler {
                next_observation: next_after(s.next_observation as int, OBSERVATION_INTERVAL as int, now as int) as u64,
                event_observation: None,
                ..s
            };
            !done.observes(now)
        }),
{
    law_deadlines_keep_their_rhythm(s.next_observation as int, OBSERVATION_INTERVAL as int, now as int);
}

/// A daemon observes and captures at once; it first beats after ten seconds, and looks after itself
/// after one.
pub proof fn law_daemons_begin_at_once(now: u64)
    requires
        now + 10_000_000_000 <= u64::MAX,
    ensures
        ({
            let s = Scheduler::begun(now);
            &&& s.observes(now) && s.next_capture == now
            &&& s.next_heartbeat == now + 10_000_000_000
            &&& s.next_maintenance == now + 1_000_000_000
            &&& s.event_observation is None
        }),
{
}

/// An event has tmux observed within a twentieth of a second; further events put that off no further, and
/// nothing else is put off by any.
pub proof fn law_events_share_an_observation(s: Scheduler, now: u64, later: u64)
    requires
        now <= later,
        later + 10_000_000_000 <= u64::MAX,
    ensures
        s.event_observation is None ==> s.told(now).event_observation is Some && s.told(now).event_observation->0 == now
            + 50_000_000,
        s.told(now).told(later) == s.told(now),
        s.told(now).next_observation == s.next_observation && s.told(now).next_capture == s.next_capture && s.told(
            now,
        ).next_heartbeat == s.next_heartbeat && s.told(now).next_maintenance == s.next_maintenance,
{
}

/// What was done is due again after its interval, in its rhythm, and not before; nothing else moves. A
/// heartbeat that failed is tried again after a second, one that went well follows after ten.
pub proof fn law_what_was_done_is_due_again(s: Scheduler, now: u64)
    requires
        now + 10_000_000_000 <= u64::MAX,
        s.next_observation <= now,
        s.next_capture <= now,
        s.next_maintenance <= now,
    ensures
        ({
            let o = s.observed(now);
            &&& now < o.next_observation <= now + 2_000_000_000
            &&& (o.next_observation - s.next_observation) % 2_000_000_000 == 0
            &&& !o.observes(now)
            &&& o.next_capture == s.next_capture && o.next_heartbeat == s.next_heartbeat && o.next_maintenance
                == s.next_maintenance
        }),
        ({
            let c = s.captured(now);
            &&& now < c.next_capture <= now + 2_000_000_000
            &&& c == (Scheduler { next_capture: c.next_capture, ..s })
        }),
        ({
            let m = s.maintained(now);
            &&& now < m.next_maintenance <= now + 1_000_000_000
            &&& m == (Scheduler { next_maintenance: m.next_maintenance, ..s })
        }),
        s.beaten(now, true).next_heartbeat == now + 10_000_000_000,
        s.beaten(now, false).next_heartbeat == now + 1_000_000_000,
        s.beaten(now, true) == (Scheduler { next_heartbeat: s.beaten(now, true).next_heartbeat, ..s }),
{
    law_deadlines_keep_their_rhythm(s.next_observation as int, OBSERVATION_INTERVAL as int, now as int);
    law_deadlines_keep_their_rhythm(s.next_capture as int, CAPTURE_INTERVAL as int, now as int);
    law_deadlines_keep_their_rhythm(s.next_maintenance as int, MAINTENANCE_INTERVAL as int, now as int);
}

/// Tmux is observed when its turn has come, and when an event's has; not otherwise.
pub proof fn law_observations_have_two_reasons(s: Scheduler, now: u64)
    ensures
        s.next_observation <= now ==> s.observes(now),
        s.event_observation is Some && s.event_observation->0 <= now ==> s.observes(now),
        s.next_observation > now && (s.event_observation is None || s.event_observation->0 > now) ==> !s.observes(now),
        s.next() <= s.next_observation && s.next() <= s.next_capture && s.next() <= s.next_heartbeat && s.next()
            <= s.next_maintenance,
{
}

} // verus!
