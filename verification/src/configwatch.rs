//! When configuration is read anew.

use vstd::prelude::*;

use crate::collections;
use crate::collections::StrSet;
use crate::gitloop;
use crate::paths;
use crate::text;
use crate::watch::WatchEvent;

verus! {

/// How long a reload waits for further changes, in nanoseconds.
pub const RELOAD_DEBOUNCE: u64 = 200_000_000;

/// How long the watcher waits where nothing is pending, in nanoseconds.
pub const IDLE_WAIT: u64 = 500_000_000;

/// Whether a file of this name holds configuration.
pub open spec fn config_name(name: Seq<char>) -> bool {
    name == "config.yaml"@ || name == "config.yml"@ || name == ".workmux.yaml"@ || name == ".workmux.yml"@
}

/// Whether a path leads to configuration.
pub open spec fn config_path(path: Seq<char>) -> bool {
    match paths::last_name(path) {
        Some(name) => config_name(name),
        None => false,
    }
}

/// Whether an event calls for a reload. Reading a file must not, or each reload would call for the
/// next. Where events were lost, whatever paths are known, it does.
pub open spec fn calls_for_reload(event: WatchEvent) -> bool {
    event.rescan || (!event.access && exists|i: int|
        0 <= i < event.paths@.len() && config_path((#[trigger] event.paths@[i])@))
}

pub fn config_event_triggers_reload(event: &WatchEvent) -> (r: bool)
    ensures
        r == calls_for_reload(*event),
{
    if event.rescan {
        return true;
    }
    if event.access {
        return false;
    }
    let mut i: usize = 0;
    while i < event.paths.len()
        invariant
            !event.rescan,
            !event.access,
            i <= event.paths@.len(),
            forall|j: int| 0 <= j < i ==> !config_path((#[trigger] event.paths@[j])@),
        decreases event.paths.len() - i,
    {
        match paths::file_name(event.paths[i].as_str()) {
            Some(name) => {
                let name = name.as_str();
                if text::same(name, "config.yaml") || text::same(name, "config.yml") || text::same(
                    name,
                    ".workmux.yaml",
                ) || text::same(name, ".workmux.yml") {
                    proof {
                        assert(config_path(event.paths@[i as int]@));
                    }
                    return true;
                }
            },
            None => {},
        }
        i += 1;
    }
    false
}

/// The state of the watcher of configuration files.
pub struct ConfigWatcher {
    /// The directory of the global configuration, if it is watched.
    pub global: Option<String>,
    /// Directories of project configurations. The global directory may be among them, and is not
    /// watched twice.
    pub projects: StrSet,
    /// When a reload is due.
    pub pending: Option<u64>,
}

/// When a reload is due once an event called for one: the first event of a burst decides.
pub open spec fn noted(pending: Option<u64>, now: u64) -> Option<u64> {
    match pending {
        Some(at) => Some(at),
        None => Some(if now + RELOAD_DEBOUNCE <= u64::MAX {
            (now + RELOAD_DEBOUNCE) as u64
        } else {
            u64::MAX
        }),
    }
}

impl ConfigWatcher {
    pub fn new(global: Option<String>) -> (r: Self)
        ensures
            r.global == global,
            r.projects@ == Set::<Seq<char>>::empty(),
            r.pending is None,
    {
        ConfigWatcher { global, projects: StrSet::new(), pending: None }
    }

    /// Whether a directory is the global one.
    pub open spec fn is_global_dir(&self, dir: Seq<char>) -> bool {
        match self.global {
            Some(global) => global@ == dir,
            None => false,
        }
    }

    fn is_global(&self, dir: &str) -> (r: bool)
        ensures
            r == self.is_global_dir(dir@),
    {
        match &self.global {
            Some(global) => text::same(global.as_str(), dir),
            None => false,
        }
    }

    /// Lets go of directories without projects. Returns those that are not to be watched any more.
    pub fn let_go(&mut self, dirs: &StrSet) -> (r: StrSet)
        ensures
            final(self).projects@ == old(self).projects@.intersect(dirs@),
            forall|d: Seq<char>| #[trigger]
                r@.contains(d) <==> old(self).projects@.contains(d) && !dirs@.contains(d) && !old(self).is_global_dir(d),
            *final(self) == (ConfigWatcher { projects: final(self).projects, ..*old(self) }),
    {
        let n: usize = self.projects.len();
        let ghost items = self.projects.items();
        let ghost all = self.projects@;
        let mut kept = StrSet::new();
        let mut r = StrSet::new();
        let mut i: usize = 0;
        proof {
            collections::lemma_met(items, 0);
        }
        while i < n
            invariant
                n == items.len(),
                items == self.projects.items(),
                *self == *old(self),
                i <= n,
                forall|d: Seq<char>| #[trigger]
                    kept@.contains(d) <==> collections::met(items, i as int, d) && dirs@.contains(d),
                forall|d: Seq<char>| #[trigger]
                    r@.contains(d) <==> collections::met(items, i as int, d) && !dirs@.contains(d)
                        && !self.is_global_dir(d),
            decreases n - i,
        {
            let dir = self.projects.get(i);
            proof {
                collections::lemma_met(items, i as int);
            }
            if dirs.contains(dir.as_str()) {
                kept.insert(dir.clone());
            } else if !self.is_global(dir.as_str()) {
                r.insert(dir.clone());
            }
            i += 1;
        }
        proof {
            self.projects.lemma_items();
            collections::lemma_met(items, n as int);
            assert forall|d: Seq<char>| collections::met(items, n as int, d) == all.contains(d) by {
                assert(items.contains(d) <==> all.contains(d));
            }
            assert(kept@ =~= all.intersect(dirs@));
        }
        self.projects = kept;
        r
    }

    /// Returns the directories that are to be watched from now on. The global one is watched
    /// already, and taken over.
    pub fn take_up(&mut self, dirs: &StrSet) -> (r: StrSet)
        ensures
            forall|d: Seq<char>| #[trigger]
                final(self).projects@.contains(d) <==> old(self).projects@.contains(d) || (dirs@.contains(d)
                    && old(self).is_global_dir(d)),
            forall|d: Seq<char>| #[trigger]
                r@.contains(d) <==> dirs@.contains(d) && !old(self).projects@.contains(d) && !old(self).is_global_dir(d),
            *final(self) == (ConfigWatcher { projects: final(self).projects, ..*old(self) }),
    {
        let n: usize = dirs.len();
        let ghost items = dirs.items();
        let ghost before = self.projects@;
        let mut r = StrSet::new();
        let mut i: usize = 0;
        proof {
            collections::lemma_met(items, 0);
        }
        while i < n
            invariant
                n == items.len(),
                items == dirs.items(),
                i <= n,
                before == old(self).projects@,
                forall|d: Seq<char>| #[trigger]
                    self.projects@.contains(d) <==> before.contains(d) || (collections::met(items, i as int, d)
                        && old(self).is_global_dir(d)),
                forall|d: Seq<char>| #[trigger]
                    r@.contains(d) <==> collections::met(items, i as int, d) && !before.contains(d) && !old(
                        self,
                    ).is_global_dir(d),
                *self == (ConfigWatcher { projects: self.projects, ..*old(self) }),
            decreases n - i,
        {
            let dir = dirs.get(i);
            proof {
                collections::lemma_met(items, i as int);
            }
            if self.is_global(dir.as_str()) {
                self.projects.insert(dir.clone());
            } else if !self.projects.contains(dir.as_str()) {
                r.insert(dir.clone());
            }
            i += 1;
        }
        proof {
            dirs.lemma_items();
            collections::lemma_met(items, n as int);
            assert forall|d: Seq<char>| collections::met(items, n as int, d) == dirs@.contains(d) by {
                assert(items.contains(d) <==> dirs@.contains(d));
            }
        }
        r
    }

    /// Notes that a directory is watched.
    pub fn watched(&mut self, dir: &str)
        ensures
            final(self).projects@ == old(self).projects@.insert(dir@),
            *final(self) == (ConfigWatcher { projects: final(self).projects, ..*old(self) }),
    {
        self.projects.insert(dir.to_owned());
    }

    /// How long to wait for the next event.
    pub fn timeout(&self, now: u64) -> (r: u64)
        ensures
            r == (match self.pending {
                Some(at) => gitloop::since(now, at),
                None => IDLE_WAIT as int,
            }),
    {
        match self.pending {
            Some(at) => at.saturating_sub(now),
            None => IDLE_WAIT,
        }
    }

    /// Notes that a reload is called for.
    pub fn call(&mut self, now: u64)
        ensures
            *final(self) == (ConfigWatcher { pending: noted(old(self).pending, now), ..*old(self) }),
    {
        if self.pending.is_none() {
            self.pending = Some(now.saturating_add(RELOAD_DEBOUNCE));
        }
    }

    /// Notes an event.
    pub fn note_event(&mut self, event: &WatchEvent, now: u64)
        ensures
            *final(self) == (ConfigWatcher {
                pending: if calls_for_reload(*event) {
                    noted(old(self).pending, now)
                } else {
                    old(self).pending
                },
                ..*old(self)
            }),
    {
        if config_event_triggers_reload(event) {
            self.call(now);
        }
    }

    /// Whether to reload now.
    pub fn reload(&mut self, now: u64) -> (r: bool)
        ensures
            r == (match old(self).pending {
                Some(at) => now >= at,
                None => false,
            }),
            *final(self) == (ConfigWatcher {
                pending: if r {
                    None
                } else {
                    old(self).pending
                },
                ..*old(self)
            }),
    {
        match self.pending {
            Some(at) => if now >= at {
                self.pending = None;
                true
            } else {
                false
            },
            None => false,
        }
    }
}

/// Reading configuration does not call for reading it again.
pub proof fn law_reads_call_for_nothing(event: WatchEvent)
    requires
        event.access,
        !event.rescan,
    ensures
        !calls_for_reload(event),
{
}

/// A burst of changes does not put the reload off: it is due a fixed time after the first of them.
pub proof fn law_bursts_do_not_postpone(first: u64, later: u64)
    requires
        first + RELOAD_DEBOUNCE <= u64::MAX,
    ensures
        noted(noted(None, first), later) == Some((first + RELOAD_DEBOUNCE) as u64),
{
}

/// Once directories were let go of and taken up, and every new one is watched, the projects are the
/// directories asked for, whichever they were before; and the global directory was neither
/// unwatched nor watched twice.
pub proof fn law_watched_directories_follow(
    before: ConfigWatcher,
    dirs: Set<Seq<char>>,
    kept: Set<Seq<char>>,
    unwatched: Set<Seq<char>>,
    taken: Set<Seq<char>>,
    to_watch: Set<Seq<char>>,
)
    requires
        kept == before.projects@.intersect(dirs),
        forall|d: Seq<char>| #[trigger]
            unwatched.contains(d) <==> before.projects@.contains(d) && !dirs.contains(d) && !before.is_global_dir(d),
        forall|d: Seq<char>| #[trigger]
            taken.contains(d) <==> kept.contains(d) || (dirs.contains(d) && before.is_global_dir(d)),
        forall|d: Seq<char>| #[trigger]
            to_watch.contains(d) <==> dirs.contains(d) && !kept.contains(d) && !before.is_global_dir(d),
    ensures
        taken.union(to_watch) == dirs,
        forall|d: Seq<char>| before.is_global_dir(d) ==> !(#[trigger] unwatched.contains(d)),
        forall|d: Seq<char>| before.is_global_dir(d) ==> !(#[trigger] to_watch.contains(d)),
{
    assert(taken.union(to_watch) =~= dirs);
}

/// A change to a file of one of the four names of configuration calls for a reload, wherever it lies;
/// changes to other files do not, unless changes were lost.
pub proof fn law_configurations_call_for_reload(event: WatchEvent, i: int, name: Seq<char>)
    requires
        0 <= i < event.paths@.len(),
        paths::last_name(event.paths@[i]@) == Some(name),
    ensures
        !event.access && (name == "config.yaml"@ || name == "config.yml"@ || name == ".workmux.yaml"@ || name
            == ".workmux.yml"@) ==> calls_for_reload(event),
        event.rescan ==> calls_for_reload(event),
        event.paths@.len() == 1 && !event.rescan && name != "config.yaml"@ && name != "config.yml"@ && name
            != ".workmux.yaml"@ && name != ".workmux.yml"@ ==> !calls_for_reload(event),
{
    assert(config_path(event.paths@[i]@) == config_name(name));
}

/// A reload waits a fifth of a second for further changes.
pub proof fn law_reloads_wait_a_moment(now: u64)
    requires
        now + 200_000_000 <= u64::MAX,
    ensures
        noted(None, now) is Some && noted(None, now)->0 == now + 200_000_000,
{
}

} // verus!
