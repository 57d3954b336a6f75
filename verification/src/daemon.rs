//! The daemon's loop: what it does when. Times are nanoseconds on a clock that never goes back.

use vstd::prelude::*;

use crate::collections::StrSet;
use crate::gitloop;
use crate::model::SidebarGroupBy;
use crate::schedule;
use crate::schedule::{Scheduler, LONGEST_INTERVAL};
use crate::text;

verus! {

/// How long the daemon stays without clients.
pub const CLIENT_GRACE: u64 = 10_000_000_000;

/// How often the daemon logs that it is alive.
pub const HEALTH_LOG_INTERVAL: u64 = 60_000_000_000;

/// What maintenance comes to.
#[derive(Debug, Clone, Copy, PartialEq, Eq, Structural)]
pub struct Maintenance {
    /// Nobody has been listening for too long.
    pub exit: bool,
    /// It is time to log that the daemon is alive.
    pub log: bool,
}

/// How tmux is told of the agents within reach.
#[derive(Debug)]
pub enum Announcement {
    Nothing,
    Clear,
    Tell(String),
}

/// The state of the daemon's loop.
pub struct DaemonLoop {
    pub scheduler: Scheduler,
    /// Whether there is news to publish.
    pub publish_pending: bool,
    pub last_client_seen: u64,
    pub last_health_log: u64,
    /// The agents within reach, as tmux was last told of them.
    pub last_agent_list: String,
    pub last_config_dirs: StrSet,
    /// The lifetime of the tmux server for which stored records were compacted.
    pub compacted_boot_id: Option<String>,
    pub last_interrupted: StrSet,
}

/// Whether groups that went stale are folded. Folding is part of the grouped presentation: a flat
/// list shows every agent.
pub fn folds_stale(configured: bool, group_by: Option<SidebarGroupBy>) -> (r: bool)
    ensures
        r == (configured && group_by is Some),
{
    configured && group_by.is_some()
}

impl DaemonLoop {
    pub fn new(now: u64) -> (r: Self)
        requires
            now + LONGEST_INTERVAL <= u64::MAX,
        ensures
            r.scheduler == (Scheduler {
                next_observation: now,
                next_capture: now,
                next_heartbeat: (now + schedule::HEARTBEAT_INTERVAL) as u64,
                next_maintenance: (now + schedule::MAINTENANCE_INTERVAL) as u64,
                event_observation: None,
            }),
            !r.publish_pending,
            r.last_client_seen == now,
            r.last_health_log == now,
            r.last_agent_list@ == Seq::<char>::empty(),
            r.last_config_dirs@ == Set::<Seq<char>>::empty(),
            r.compacted_boot_id is None,
            r.last_interrupted@ == Set::<Seq<char>>::empty(),
    {
        DaemonLoop {
            scheduler: Scheduler::new(now),
            publish_pending: false,
            last_client_seen: now,
            last_health_log: now,
            last_agent_list: String::new(),
            last_config_dirs: StrSet::new(),
            compacted_boot_id: None,
            last_interrupted: StrSet::new(),
        }
    }

    /// Takes over what happened while the loop slept: events of tmux, and news of the workers.
    pub fn wake(&mut self, tmux_event: bool, news: bool, now: u64)
        requires
            now + LONGEST_INTERVAL <= u64::MAX,
        ensures
            *final(self) == (DaemonLoop {
                scheduler: if tmux_event {
                    Scheduler {
                        event_observation: match old(self).scheduler.event_observation {
                            Some(t) => Some(t),
                            None => Some((now + schedule::EVENT_COALESCE_INTERVAL) as u64),
                        },
                        ..old(self).scheduler
                    }
                } else {
                    old(self).scheduler
                },
                publish_pending: old(self).publish_pending || news,
                ..*old(self)
            }),
    {
        if tmux_event {
            self.scheduler.notify_tmux_event(now);
        }
        if news {
            self.publish_pending = true;
        }
    }

    /// Whether to observe tmux now.
    pub fn observe(&mut self, now: u64) -> (r: bool)
        requires
            now + LONGEST_INTERVAL <= u64::MAX,
        ensures
            r == old(self).scheduler.observes(now),
            !r ==> *final(self) == *old(self),
            r ==> *final(self) == (DaemonLoop {
                scheduler: Scheduler {
                    next_observation: schedule::next_after(
                        old(self).scheduler.next_observation as int,
                        schedule::OBSERVATION_INTERVAL as int,
                        now as int,
                    ) as u64,
                    event_observation: None,
                    ..old(self).scheduler
                },
                ..*old(self)
            }),
    {
        if !self.scheduler.observation_due(now) {
            return false;
        }
        self.scheduler.finish_observation(now);
        true
    }

    /// Whether stored records are to be compacted: once per lifetime of the tmux server.
    pub fn needs_compaction(&self, boot_id: &Option<String>) -> (r: bool)
        ensures
            r == (text::optional(*boot_id) != text::optional(self.compacted_boot_id)),
    {
        !text::same_optional(boot_id, &self.compacted_boot_id)
    }

    /// Notes that stored records were compacted.
    pub fn compacted(&mut self, boot_id: &Option<String>)
        ensures
            text::optional(final(self).compacted_boot_id) == text::optional(*boot_id),
            *final(self) == (DaemonLoop { compacted_boot_id: final(self).compacted_boot_id, ..*old(self) }),
    {
        self.compacted_boot_id = text::copy_optional(boot_id);
    }

    /// Notes that agents were observed.
    pub fn observed(&mut self)
        ensures
            *final(self) == (DaemonLoop { publish_pending: true, ..*old(self) }),
    {
        self.publish_pending = true;
    }

    /// Whether to capture panes now. Without agents, the turn passes.
    pub fn capture(&mut self, has_agents: bool, now: u64) -> (r: bool)
        requires
            now + LONGEST_INTERVAL <= u64::MAX,
        ensures
            r == (old(self).scheduler.next_capture <= now && has_agents),
            old(self).scheduler.next_capture > now ==> *final(self) == *old(self),
            old(self).scheduler.next_capture <= now ==> *final(self) == (DaemonLoop {
                scheduler: Scheduler {
                    next_capture: schedule::next_after(
                        old(self).scheduler.next_capture as int,
                        schedule::CAPTURE_INTERVAL as int,
                        now as int,
                    ) as u64,
                    ..old(self).scheduler
                },
                publish_pending: old(self).publish_pending || has_agents,
                ..*old(self)
            }),
    {
        if !self.scheduler.capture_due(now) {
            return false;
        }
        self.scheduler.finish_capture(now);
        if has_agents {
            self.publish_pending = true;
        }
        has_agents
    }

    /// Whether to publish now. Before agents were observed, news waits.
    pub fn publish(&mut self, has_agents: bool) -> (r: bool)
        ensures
            r == (old(self).publish_pending && has_agents),
            *final(self) == (DaemonLoop { publish_pending: old(self).publish_pending && !has_agents, ..*old(self) }),
    {
        if self.publish_pending && has_agents {
            self.publish_pending = false;
            true
        } else {
            false
        }
    }

    /// Takes over what a turn came to: which panes are interrupted, and whether that was stored, which
    /// stands for a heartbeat.
    pub fn published(&mut self, interrupted: StrSet, stored: bool, now: u64)
        requires
            now + LONGEST_INTERVAL <= u64::MAX,
        ensures
            *final(self) == (DaemonLoop {
                scheduler: if stored {
                    Scheduler {
                        next_heartbeat: (now + schedule::HEARTBEAT_INTERVAL) as u64,
                        ..old(self).scheduler
                    }
                } else {
                    old(self).scheduler
                },
                last_interrupted: interrupted,
                ..*old(self)
            }),
    {
        if stored {
            self.scheduler.finish_heartbeat(now, true);
        }
        self.last_interrupted = interrupted;
    }

    /// Whether the directories of project configurations changed.
    pub fn follow_configs(&mut self, dirs: &StrSet) -> (r: bool)
        ensures
            r == (dirs@ != old(self).last_config_dirs@),
            final(self).last_config_dirs@ == dirs@,
            *final(self) == (DaemonLoop { last_config_dirs: final(self).last_config_dirs, ..*old(self) }),
    {
        if dirs.same(&self.last_config_dirs) {
            return false;
        }
        self.last_config_dirs = dirs.copy();
        true
    }

    /// How to tell tmux of the agents within reach.
    pub fn announce(&mut self, list: &str) -> (r: Announcement)
        ensures
            match r {
                Announcement::Nothing => list@ == old(self).last_agent_list@,
                Announcement::Clear => list@ != old(self).last_agent_list@ && list@.len() == 0,
                Announcement::Tell(told) => list@ != old(self).last_agent_list@ && list@.len() > 0 && told@ == list@,
            },
            final(self).last_agent_list@ == list@,
            *final(self) == (DaemonLoop { last_agent_list: final(self).last_agent_list, ..*old(self) }),
    {
        if text::same(list, self.last_agent_list.as_str()) {
            return Announcement::Nothing;
        }
        self.last_agent_list = list.to_owned();
        if list.unicode_len() == 0 {
            Announcement::Clear
        } else {
            Announcement::Tell(list.to_owned())
        }
    }

    /// What maintenance comes to, and the loop after it.
    pub open spec fn maintained(self, client_count: usize, now: u64) -> (Maintenance, DaemonLoop) {
        let due = self.scheduler.next_maintenance <= now;
        let exit = client_count == 0 && gitloop::since(self.last_client_seen, now) > CLIENT_GRACE;
        let log = !exit && gitloop::since(self.last_health_log, now) >= HEALTH_LOG_INTERVAL;
        if due {
            (
                Maintenance { exit, log },
                DaemonLoop {
                    scheduler: self.scheduler.maintained(now),
                    last_client_seen: if client_count > 0 {
                        now
                    } else {
                        self.last_client_seen
                    },
                    last_health_log: if log {
                        now
                    } else {
                        self.last_health_log
                    },
                    ..self
                },
            )
        } else {
            (Maintenance { exit: false, log: false }, self)
        }
    }

    /// Looks after the daemon, where that is due.
    pub fn maintain(&mut self, client_count: usize, now: u64) -> (r: Maintenance)
        requires
            now + LONGEST_INTERVAL <= u64::MAX,
        ensures
            (r, *final(self)) == old(self).maintained(client_count, now),
    {
        if !self.scheduler.maintenance_due(now) {
            return Maintenance { exit: false, log: false };
        }
        self.scheduler.finish_maintenance(now);
        if client_count > 0 {
            self.last_client_seen = now;
        } else if now.saturating_sub(self.last_client_seen) > CLIENT_GRACE {
            return Maintenance { exit: true, log: false };
        }
        if now.saturating_sub(self.last_health_log) >= HEALTH_LOG_INTERVAL {
            self.last_health_log = now;
            return Maintenance { exit: false, log: true };
        }
        Maintenance { exit: false, log: false }
    }
}

/// The daemon ends only where nobody has listened for more than ten seconds; a client that is there keeps
/// it alive, from then on for ten seconds more. It says every minute that it is alive, and never as it
/// ends.
pub proof fn law_daemons_outlive_their_clients(d: DaemonLoop, clients: usize, now: u64)
    requires
        d.scheduler.next_maintenance <= now,
        d.last_client_seen <= now,
        d.last_health_log <= now,
    ensures
        ({
            let (r, after) = d.maintained(clients, now);
            &&& r.exit <==> clients == 0 && now > d.last_client_seen + 10_000_000_000
            &&& r.log <==> !r.exit && now >= d.last_health_log + 60_000_000_000
            &&& clients > 0 ==> after.last_client_seen == now
            &&& clients == 0 ==> after.last_client_seen == d.last_client_seen
            &&& r.log ==> after.last_health_log == now
            &&& !r.log ==> after.last_health_log == d.last_health_log
            &&& after.publish_pending == d.publish_pending && after.last_agent_list == d.last_agent_list
        }),
{
}

/// Before maintenance is due, nothing is done.
pub proof fn law_maintenance_waits_its_turn(d: DaemonLoop, clients: usize, now: u64)
    requires
        d.scheduler.next_maintenance > now,
    ensures
        !d.maintained(clients, now).0.exit && !d.maintained(clients, now).0.log,
        d.maintained(clients, now).1 == d,
{
}

} // verus!
