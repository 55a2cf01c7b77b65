//! Watching the focused application to switch device profiles, and the
//! processes of applications that plugins monitor.
//!
//! The caller polls the window system and the process table and hands the
//! library what it saw; the library decides which events to send and keeps
//! the monitoring state.

use vstd::prelude::*;
use vstd::hash_map::StringHashMap;
use vstd::arithmetic::div_mod::lemma_fundamental_div_mod_converse;

use crate::assoc::{assoc_map, find_key, has_key, keys_unique, lemma_assoc_dom, lemma_assoc_push, lemma_assoc_update, lemma_assoc_value};
use crate::text::{chars_of, has_prefix, starts_with, trim, trimmed};

verus! {

/// Asks the frontend to switch `device` to `profile`.
#[derive(Debug, Clone)]
pub struct SwitchProfileEvent {
    pub device: String,
    pub profile: String,
}

/// Per device identifier, a profile.
pub type DeviceProfiles = StringHashMap<String>;

/// Per application name, per device identifier, the profile to switch to
/// while that application is focused.
pub type ApplicationProfiles = StringHashMap<DeviceProfiles>;

/// A table with no profile.
pub fn empty_device_profiles() -> (table: DeviceProfiles)
    ensures
        table@ == Map::<Seq<char>, String>::empty(),
{
    StringHashMap::new()
}

/// Sets the profile of one device.
pub fn set_device_profile(table: &mut DeviceProfiles, device: String, profile: String)
    ensures
        final(table)@ == old(table)@.insert(device@, profile),
{
    table.insert(device, profile);
}

/// A table with no application.
pub fn empty_application_profiles() -> (table: ApplicationProfiles)
    ensures
        table@ == Map::<Seq<char>, DeviceProfiles>::empty(),
{
    StringHashMap::new()
}

/// Sets the device profiles of one application.
pub fn set_application_profiles(table: &mut ApplicationProfiles, application: String, devices: DeviceProfiles)
    ensures
        final(table)@ == old(table)@.insert(application@, devices),
{
    table.insert(application, devices);
}

/// The entry of [`ApplicationProfiles`] that applies to applications without
/// an entry of their own.
pub open spec fn default_entry() -> Seq<char> {
    "opendeck_default"@
}

/// What `str::to_lowercase` returns for `s` (Unicode lowercase mapping).
pub uninterp spec fn unicode_lowercase(s: Seq<char>) -> Seq<char>;

/// Lowercases with `str::to_lowercase`.
///
/// Trusted: the result is the standard library's Unicode lowercase of the
/// input, which depends on the input alone; its characters are not stated.
#[verifier::external_body]
pub(crate) fn lowercase(s: &str) -> (lower: String)
    ensures
        lower@ == unicode_lowercase(s@),
{
    s.to_lowercase()
}

/// An application name joins the list of known applications when it is not
/// listed yet, is not this program itself (its lowercase name does not start
/// with the lowercase product name) and is not blank.
pub open spec fn is_new_application(known: Seq<Seq<char>>, name: Seq<char>, product: Seq<char>) -> bool {
    &&& !known.contains(name)
    &&& !has_prefix(unicode_lowercase(name), unicode_lowercase(product))
    &&& trimmed(name).len() > 0
}

/// Adds the focused application's name to the known applications where
/// [`is_new_application`] holds; returns whether it was added, in which case
/// the caller announces the new list.
pub fn record_application(applications: &mut Vec<String>, name: &String, product: &str) -> (added: bool)
    ensures
        added == is_new_application(old(applications)@.map_values(|a: String| a@), name@, product@),
        final(applications)@ == if added {
            old(applications)@.push(*name)
        } else {
            old(applications)@
        },
{
    let ghost views = applications@.map_values(|a: String| a@);
    let mut i: usize = 0;
    while i < applications.len()
        invariant
            i <= applications@.len(),
            views == applications@.map_values(|a: String| a@),
            forall|k: int| 0 <= k < i ==> views[k] != name@,
        decreases applications.len() - i,
    {
        if applications[i] == *name {
            assert(views[i as int] == name@);
            return false;
        }
        i = i + 1;
    }
    let own = starts_with(&chars_of(lowercase(name.as_str()).as_str()), &chars_of(lowercase(product).as_str()));
    if own {
        return false;
    }
    if trim(&chars_of(name.as_str())).len() == 0 {
        return false;
    }
    applications.push(name.clone());
    true
}

/// The focused application seen by the last check of profiles.
pub struct FocusWatcher {
    previous: String,
}

impl FocusWatcher {
    /// The application seen by the last check; empty at first.
    pub closed spec fn previous(&self) -> Seq<char> {
        self.previous@
    }

    /// No application seen yet.
    pub fn new() -> (watcher: Self)
        ensures
            watcher.previous().len() == 0,
    {
        FocusWatcher { previous: String::new() }
    }

    /// Decides whether the focus change to `application` calls for checking
    /// device profiles: only when the focused application changed and the
    /// computer is not locked. A check remembers the application; otherwise
    /// the change is looked at again on the next poll.
    pub fn focus_changed(&mut self, application: &String, locked: bool) -> (check: bool)
        ensures
            check == (application@ != old(self).previous() && !locked),
            final(self).previous() == if check {
                application@
            } else {
                old(self).previous()
            },
    {
        if *application != self.previous && !locked {
            self.previous = application.clone();
            true
        } else {
            false
        }
    }
}

/// The profile for `device` while `application` is focused: the
/// application's own entry for the device, else the default entry's.
pub open spec fn profile_for(profiles: Map<Seq<char>, StringHashMap<String>>, application: Seq<char>, device: Seq<char>) -> Option<Seq<char>> {
    if profiles.contains_key(application) && profiles[application]@.contains_key(device) {
        Some(profiles[application]@[device]@)
    } else if profiles.contains_key(default_entry()) && profiles[default_entry()]@.contains_key(device) {
        Some(profiles[default_entry()]@[device]@)
    } else {
        None
    }
}

/// Looks up the profile for `device` while `application` is focused.
pub fn profile_for_device(profiles: &ApplicationProfiles, application: &str, device: &str) -> (profile: Option<String>)
    ensures
        match profile {
            Some(p) => profile_for(profiles@, application@, device@) == Some(p@),
            None => profile_for(profiles@, application@, device@) is None,
        },
{
    if let Some(entry) = profiles.get(application) {
        if let Some(profile) = entry.get(device) {
            return Some(profile.clone());
        }
    }
    let default_name = "opendeck_default";
    if let Some(entry) = profiles.get(default_name) {
        if let Some(profile) = entry.get(device) {
            return Some(profile.clone());
        }
    }
    None
}

/// Decides the profile switch for one device: none when the application
/// has no profile for it, or when the device already has that profile
/// selected (`selected` is `None` where the selection could not be read).
pub fn profile_switch(device: &String, profile: Option<String>, selected: Option<String>) -> (event: Option<SwitchProfileEvent>)
    ensures
        match event {
            Some(e) => profile matches Some(p) && e.profile@ == p@ && e.device@ == device@ && !(selected matches Some(
                s,
            ) && s@ == p@),
            None => profile is None || (profile matches Some(p) && selected matches Some(s) && s@ == p@),
        },
{
    match profile {
        None => None,
        Some(p) => {
            let same = match &selected {
                Some(s) => *s == p,
                None => false,
            };
            if same {
                None
            } else {
                Some(SwitchProfileEvent { device: device.clone(), profile: p })
            }
        },
    }
}

/// The list under `k`, or the empty list where `k` has none.
pub open spec fn or_empty<T>(m: Map<Seq<char>, Seq<T>>, k: Seq<char>) -> Seq<T> {
    if m.contains_key(k) {
        m[k]
    } else {
        Seq::empty()
    }
}

/// The monitoring map after plugin `p` starts monitoring `applications`:
/// `p` is appended to each application's list, once per mention.
pub open spec fn started(
    m: Map<Seq<char>, Seq<Seq<char>>>,
    applications: Seq<Seq<char>>,
    p: Seq<char>,
) -> Map<Seq<char>, Seq<Seq<char>>>
    decreases applications.len(),
{
    if applications.len() == 0 {
        m
    } else {
        let m1 = started(m, applications.drop_last(), p);
        let a = applications.last();
        m1.insert(a, or_empty(m1, a).push(p))
    }
}

/// The launch notifications owed to plugin `p` when it starts monitoring
/// `applications`: one `(p, application)` per process already seen running
/// for each application, in order.
pub open spec fn launch_events(
    processes: Map<Seq<char>, Seq<u32>>,
    applications: Seq<Seq<char>>,
    p: Seq<char>,
) -> Seq<(Seq<char>, Seq<char>)>
    decreases applications.len(),
{
    if applications.len() == 0 {
        Seq::empty()
    } else {
        let a = applications.last();
        launch_events(processes, applications.drop_last(), p) + Seq::new(
            or_empty(processes, a).len(),
            |_i: int| (p, a),
        )
    }
}

/// The list without plugin `p`.
pub open spec fn without(list: Seq<Seq<char>>, p: Seq<char>) -> Seq<Seq<char>> {
    list.filter(|x: Seq<char>| x != p)
}

/// The monitoring map after plugin `p` stops: `p` leaves every list, and
/// applications that no plugin monitors any more leave the map.
pub open spec fn stopped(m: Map<Seq<char>, Seq<Seq<char>>>, p: Seq<char>) -> Map<Seq<char>, Seq<Seq<char>>> {
    Map::new(|k: Seq<char>| m.contains_key(k) && without(m[k], p).len() > 0, |k: Seq<char>| without(m[k], p))
}

/// Every application in the map is monitored by at least one plugin.
pub open spec fn all_monitored(m: Map<Seq<char>, Seq<Seq<char>>>) -> bool {
    forall|k: Seq<char>| #[trigger] m.contains_key(k) ==> m[k].len() > 0
}

proof fn lemma_without_push(list: Seq<Seq<char>>, p: Seq<char>, x: Seq<char>)
    ensures
        without(list.push(x), p) == if x == p {
            without(list, p)
        } else {
            without(list, p).push(x)
        },
{
    reveal(Seq::filter);
    assert(list.push(x).drop_last() =~= list);
}

proof fn lemma_without_absent(list: Seq<Seq<char>>, p: Seq<char>)
    requires
        !list.contains(p),
    ensures
        without(list, p) == list,
    decreases list.len(),
{
    reveal(Seq::filter);
    if list.len() > 0 {
        let d = list.drop_last();
        assert(!d.contains(p)) by {
            if d.contains(p) {
                let i = choose|i: int| 0 <= i < d.len() && d[i] == p;
                assert(list[i] == p);
            }
        }
        lemma_without_absent(d, p);
        assert(list.last() != p) by {
            assert(list[list.len() - 1] == list.last());
        }
        assert(d.push(list.last()) =~= list);
    }
}

proof fn lemma_started_without(
    m: Map<Seq<char>, Seq<Seq<char>>>,
    applications: Seq<Seq<char>>,
    p: Seq<char>,
    k: Seq<char>,
)
    ensures
        started(m, applications, p).contains_key(k) == (m.contains_key(k) || applications.contains(k)),
        without(or_empty(started(m, applications, p), k), p) == without(or_empty(m, k), p),
    decreases applications.len(),
{
    if applications.len() > 0 {
        let d = applications.drop_last();
        let a = applications.last();
        lemma_started_without(m, d, p, k);
        let m1 = started(m, d, p);
        if a == k {
            lemma_without_push(or_empty(m1, k), p, p);
            assert(applications[applications.len() - 1] == k);
        } else {
            if applications.contains(k) {
                let i = choose|i: int| 0 <= i < applications.len() && applications[i] == k;
                assert(i != applications.len() - 1);
                assert(d[i] == k);
            }
            if d.contains(k) {
                let i = choose|i: int| 0 <= i < d.len() && d[i] == k;
                assert(applications[i] == k);
            }
        }
    }
}

/// A plugin that monitored nothing and starts monitoring some applications,
/// then stops, leaves the monitoring map as it found it.
pub proof fn lemma_stop_undoes_start(m: Map<Seq<char>, Seq<Seq<char>>>, applications: Seq<Seq<char>>, p: Seq<char>)
    requires
        all_monitored(m),
        forall|k: Seq<char>| #[trigger] m.contains_key(k) ==> !m[k].contains(p),
    ensures
        stopped(started(m, applications, p), p) == m,
{
    let s = started(m, applications, p);
    assert forall|k: Seq<char>| #[trigger] stopped(s, p).contains_key(k) == m.contains_key(k) by {
        lemma_started_without(m, applications, p, k);
        if m.contains_key(k) {
            lemma_without_absent(m[k], p);
        } else {
            assert(without(Seq::<Seq<char>>::empty(), p) =~= Seq::<Seq<char>>::empty()) by {
                reveal(Seq::filter);
            }
        }
    }
    assert forall|k: Seq<char>| m.contains_key(k) implies #[trigger] stopped(s, p)[k] == m[k] by {
        lemma_started_without(m, applications, p, k);
        lemma_without_absent(m[k], p);
    }
    assert(stopped(s, p) =~= m);
}

/// Whether `pid` is listed.
fn contains_pid(pids: &Vec<u32>, pid: u32) -> (r: bool)
    ensures
        r == pids@.contains(pid),
{
    let mut i: usize = 0;
    while i < pids.len()
        invariant
            i <= pids@.len(),
            forall|k: int| 0 <= k < i ==> pids@[k] != pid,
        decreases pids.len() - i,
    {
        if pids[i] == pid {
            assert(pids@[i as int] == pid);
            return true;
        }
        i = i + 1;
    }
    false
}

/// A copy of the process list.
fn copy_pids(pids: &Vec<u32>) -> (copy: Vec<u32>)
    ensures
        copy@ == pids@,
{
    let mut copy: Vec<u32> = Vec::new();
    let mut i: usize = 0;
    while i < pids.len()
        invariant
            i <= pids@.len(),
            copy@ == pids@.take(i as int),
        decreases pids.len() - i,
    {
        copy.push(pids[i]);
        assert(pids@.take(i + 1) =~= pids@.take(i as int).push(pids@[i as int]));
        i = i + 1;
    }
    assert(pids@.take(pids@.len() as int) =~= pids@);
    copy
}

/// Appends one `(plugin, application)` notification per plugin.
fn notify_all(events: &mut Vec<(String, String)>, plugins: &Vec<String>, application: &String)
    ensures
        final(events).deep_view() == old(events).deep_view() + plugins.deep_view().map_values(
            |pl: Seq<char>| (pl, application@),
        ),
{
    let ghost start = events.deep_view();
    let mut i: usize = 0;
    while i < plugins.len()
        invariant
            i <= plugins@.len(),
            events.deep_view() == start + plugins.deep_view().take(i as int).map_values(|pl: Seq<char>| (pl, application@)),
        decreases plugins.len() - i,
    {
        let ghost prev = events.deep_view();
        events.push((plugins[i].clone(), application.clone()));
        assert(events.deep_view() =~= prev.push((plugins@[i as int]@, application@)));
        assert(plugins.deep_view().take(i + 1).map_values(|pl: Seq<char>| (pl, application@)) =~= plugins.deep_view().take(
            i as int,
        ).map_values(|pl: Seq<char>| (pl, application@)).push((plugins@[i as int]@, application@)));
        i = i + 1;
    }
    assert(plugins.deep_view().take(plugins@.len() as int) =~= plugins.deep_view());
}

/// The plugins monitoring `application`, as a list (empty where none).
fn plugins_of<'a>(plugins: &'a Vec<(String, Vec<String>)>, application: &String) -> (list: Option<&'a Vec<String>>)
    requires
        keys_unique(plugins@),
    ensures
        match list {
            Some(l) => assoc_map(plugins@).contains_key(application@) && l.deep_view() == assoc_map(plugins@)[application@],
            None => !assoc_map(plugins@).contains_key(application@),
        },
{
    match find_key(plugins, application) {
        Some(j) => {
            proof {
                lemma_assoc_value(plugins@, j as int);
            }
            Some(&plugins[j].1)
        },
        None => {
            proof {
                lemma_assoc_dom(plugins@, application@);
            }
            None
        },
    }
}

/// Keeps the processes that are still running, notifying each monitoring
/// plugin of each one that is not.
fn prune_pids(
    pids: &Vec<u32>,
    live: &Vec<u32>,
    plugins: Option<&Vec<String>>,
    application: &String,
    events: &mut Vec<(String, String)>,
) -> (alive: Vec<u32>)
    ensures
        alive@ == running_only(pids@, live@),
        final(events).deep_view() == old(events).deep_view() + dead_events(
            pids@,
            live@,
            match plugins {
                Some(l) => l.deep_view(),
                None => Seq::empty(),
            },
            application@,
        ),
{
    let ghost pl = match plugins {
        Some(l) => l.deep_view(),
        None => Seq::<Seq<char>>::empty(),
    };
    let ghost start = events.deep_view();
    let mut alive: Vec<u32> = Vec::new();
    let mut i: usize = 0;
    while i < pids.len()
        invariant
            i <= pids@.len(),
            pl == match plugins {
                Some(l) => l.deep_view(),
                None => Seq::<Seq<char>>::empty(),
            },
            alive@ == running_only(pids@.take(i as int), live@),
            events.deep_view() == start + dead_events(pids@.take(i as int), live@, pl, application@),
        decreases pids.len() - i,
    {
        let pid: u32 = pids[i];
        proof {
            reveal(Seq::filter);
            assert(pids@.take(i + 1).drop_last() =~= pids@.take(i as int));
        }
        if contains_pid(live, pid) {
            alive.push(pid);
        } else {
            match plugins {
                Some(l) => notify_all(events, l, application),
                None => {
                    assert(pl.map_values(|p: Seq<char>| (p, application@)) =~= Seq::empty());
                },
            }
        }
        proof {
            assert(events.deep_view() =~= start + dead_events(pids@.take(i + 1), live@, pl, application@));
        }
        i = i + 1;
    }
    assert(pids@.take(pids@.len() as int) =~= pids@);
    alive
}

/// Which plugins monitor which applications, and the processes seen running
/// for each monitored application.
pub struct ApplicationMonitor {
    plugins: Vec<(String, Vec<String>)>,
    processes: Vec<(String, Vec<u32>)>,
}

impl ApplicationMonitor {
    /// Per application, the plugins monitoring it.
    pub closed spec fn plugins(&self) -> Map<Seq<char>, Seq<Seq<char>>> {
        assoc_map(self.plugins@)
    }

    /// Per application, the processes seen running.
    pub closed spec fn processes(&self) -> Map<Seq<char>, Seq<u32>> {
        assoc_map(self.processes@)
    }

    /// Well formed: each application is listed once in either table, and
    /// every application in the plugin table has a plugin.
    pub closed spec fn wf(&self) -> bool {
        &&& keys_unique(self.plugins@)
        &&& keys_unique(self.processes@)
        &&& all_monitored(self.plugins())
    }

    /// Nothing monitored, no process seen.
    pub fn new() -> (monitor: Self)
        ensures
            monitor.wf(),
            monitor.plugins() == Map::<Seq<char>, Seq<Seq<char>>>::empty(),
            monitor.processes() == Map::<Seq<char>, Seq<u32>>::empty(),
    {
        ApplicationMonitor { plugins: Vec::new(), processes: Vec::new() }
    }

    /// Whether no plugin monitors anything.
    pub fn is_idle(&self) -> (idle: bool)
        requires
            self.wf(),
        ensures
            idle == (self.plugins().dom() == Set::<Seq<char>>::empty()),
    {
        proof {
            if self.plugins@.len() > 0 {
                lemma_assoc_dom(self.plugins@, self.plugins@[0].0@);
            } else {
                assert(self.plugins().dom() =~= Set::<Seq<char>>::empty());
            }
        }
        self.plugins.len() == 0
    }

    /// The plugin table's entries, in the order notifications follow.
    pub closed spec fn plugin_entries(&self) -> Seq<(String, Vec<String>)> {
        self.plugins@
    }

    /// The process table's entries, in the order notifications follow.
    pub closed spec fn process_entries(&self) -> Seq<(String, Vec<u32>)> {
        self.processes@
    }

    /// Forgets the processes that are no longer running (`live` lists every
    /// running process) and returns the termination notifications for them,
    /// one per monitoring plugin. Does nothing while no plugin monitors
    /// anything.
    pub fn retire_dead_processes(&mut self, live: &Vec<u32>) -> (terminated: Vec<(String, String)>)
        requires
            old(self).wf(),
        ensures
            final(self).wf(),
            final(self).plugins() == old(self).plugins(),
            final(self).plugin_entries() == old(self).plugin_entries(),
            if old(self).plugins().dom() == Set::<Seq<char>>::empty() {
                &&& final(self).processes() == old(self).processes()
                &&& terminated@.len() == 0
            } else {
                &&& final(self).processes() == pruned(old(self).processes(), live@)
                &&& terminated.deep_view() == termination_events(old(self).process_entries(), live@, old(self).plugins())
            },
    {
        let mut events: Vec<(String, String)> = Vec::new();
        if self.is_idle() {
            return events;
        }
        let ghost old_entries = self.processes@;
        let mut kept: Vec<(String, Vec<u32>)> = Vec::new();
        let mut i: usize = 0;
        while i < self.processes.len()
            invariant
                self.processes@ == old_entries,
                self.wf(),
                i <= old_entries.len(),
                keys_unique(kept@),
                kept@.len() == i,
                forall|a: int| 0 <= a < i ==> #[trigger] kept@[a].0@ == old_entries[a].0@,
                assoc_map(kept@) == pruned(assoc_map(old_entries.take(i as int)), live@),
                events.deep_view() == termination_events(old_entries.take(i as int), live@, self.plugins()),
            decreases old_entries.len() - i,
        {
            let application = &self.processes[i].0;
            let listeners = plugins_of(&self.plugins, application);
            let alive = prune_pids(&self.processes[i].1, live, listeners, application, &mut events);
            let name = application.clone();
            let ghost before = kept@;
            let ghost entry = (name, alive);
            proof {
                assert(old_entries.take(i + 1).drop_last() =~= old_entries.take(i as int));
                assert(old_entries.take(i + 1).last() == old_entries[i as int]);
                assert(!has_key(before, name@)) by {
                    if has_key(before, name@) {
                        let a = choose|a: int| 0 <= a < before.len() && #[trigger] before[a].0@ == name@;
                        assert(old_entries[a].0@ != old_entries[i as int].0@);
                    }
                }
                assert(!assoc_map(old_entries.take(i as int)).contains_key(name@)) by {
                    lemma_assoc_dom(old_entries.take(i as int), name@);
                    if has_key(old_entries.take(i as int), name@) {
                        let b = choose|b: int| 0 <= b < i && #[trigger] old_entries.take(i as int)[b].0@ == name@;
                        assert(old_entries[b].0@ != old_entries[i as int].0@);
                    }
                }
                assert(or_empty(self.plugins(), name@) == match listeners {
                    Some(l) => l.deep_view(),
                    None => Seq::<Seq<char>>::empty(),
                });
            }
            kept.push((name, alive));
            proof {
                lemma_assoc_push(before, entry);
                assert(entry.1.deep_view() =~= entry.1@);
                assert(old_entries[i as int].1.deep_view() =~= old_entries[i as int].1@);
                assert(assoc_map(kept@) =~= pruned(assoc_map(old_entries.take(i + 1)), live@));
            }
            i = i + 1;
        }
        assert(old_entries.take(old_entries.len() as int) =~= old_entries);
        self.processes = kept;
        proof {
            assert forall|a: int, b: int| 0 <= a < b < self.processes@.len() implies #[trigger] self.processes@[a].0@
                != #[trigger] self.processes@[b].0@ by {
                assert(old_entries[a].0@ != old_entries[b].0@);
            }
        }
        events
    }

    /// Records the running processes of every monitored application
    /// (`running` lists each running process's name and identifier) and
    /// returns the launch notifications for those not seen before, one per
    /// monitoring plugin.
    pub fn record_launches(&mut self, running: &Vec<(String, u32)>) -> (launched: Vec<(String, String)>)
        requires
            old(self).wf(),
        ensures
            final(self).wf(),
            final(self).plugins() == old(self).plugins(),
            final(self).plugin_entries() == old(self).plugin_entries(),
            final(self).processes() == recorded(old(self).processes(), old(self).plugin_entries(), running@),
            launched.deep_view() == recorded_events(old(self).processes(), old(self).plugin_entries(), running@),
    {
        let ghost p0 = self.processes();
        let ghost monitored = self.plugins@;
        let mut events: Vec<(String, String)> = Vec::new();
        let mut i: usize = 0;
        while i < self.plugins.len()
            invariant
                self.plugins@ == monitored,
                self.wf(),
                i <= monitored.len(),
                self.processes() == recorded(p0, monitored.take(i as int), running@),
                events.deep_view() == recorded_events(p0, monitored.take(i as int), running@),
            decreases monitored.len() - i,
        {
            let application = &self.plugins[i].0;
            let listeners = &self.plugins[i].1;
            let ghost m = self.processes();
            let slot = find_key(&self.processes, application);
            let mut known: Vec<u32> = match slot {
                Some(j) => {
                    proof {
                        lemma_assoc_value(self.processes@, j as int);
                        assert(self.processes@[j as int].1.deep_view() =~= self.processes@[j as int].1@);
                    }
                    copy_pids(&self.processes[j].1)
                },
                None => {
                    proof {
                        lemma_assoc_dom(self.processes@, application@);
                    }
                    Vec::new()
                },
            };
            let ghost start_known = known@;
            let ghost start_events = events.deep_view();
            assert(start_known =~= or_empty(m, application@));
            let mut seen = false;
            let mut k: usize = 0;
            while k < running.len()
                invariant
                    k <= running@.len(),
                    known@ == add_new(start_known, pids_named(running@.take(k as int), application@)),
                    seen == (pids_named(running@.take(k as int), application@).len() > 0),
                    events.deep_view() == start_events + new_launch_events(
                        start_known,
                        pids_named(running@.take(k as int), application@),
                        listeners.deep_view(),
                        application@,
                    ),
                decreases running.len() - k,
            {
                let ghost before_names = pids_named(running@.take(k as int), application@);
                assert(running@.take(k + 1).drop_last() =~= running@.take(k as int));
                if running[k].0 == *application {
                    let pid: u32 = running[k].1;
                    let ghost after_names = before_names.push(pid);
                    assert(pids_named(running@.take(k + 1), application@) == after_names);
                    assert(after_names.drop_last() =~= before_names);
                    seen = true;
                    if !contains_pid(&known, pid) {
                        known.push(pid);
                        notify_all(&mut events, listeners, application);
                    }
                } else {
                    assert(pids_named(running@.take(k + 1), application@) == before_names);
                }
                k = k + 1;
            }
            assert(running@.take(running@.len() as int) =~= running@);
            proof {
                assert(monitored.take(i + 1).drop_last() =~= monitored.take(i as int));
                assert(monitored.take(i + 1).last() == monitored[i as int]);
            }
            if seen {
                let name = application.clone();
                let ghost entry = (name, known);
                let ghost before = self.processes@;
                match slot {
                    Some(j) => {
                        self.processes.set(j, (name, known));
                        proof {
                            lemma_assoc_update(before, j as int, entry);
                        }
                    },
                    None => {
                        self.processes.push((name, known));
                        proof {
                            lemma_assoc_push(before, entry);
                        }
                    },
                }
                proof {
                    assert(entry.1.deep_view() =~= entry.1@);
                    assert(self.processes() =~= recorded(p0, monitored.take(i + 1), running@));
                }
            }
            i = i + 1;
        }
        assert(monitored.take(monitored.len() as int) =~= monitored);
        events
    }

}

/// The notifications for the processes of `application` that are no longer
/// running: for each such process, one `(plugin, application)` per plugin
/// monitoring it.
pub open spec fn dead_events(
    pids: Seq<u32>,
    live: Seq<u32>,
    plugins: Seq<Seq<char>>,
    application: Seq<char>,
) -> Seq<(Seq<char>, Seq<char>)>
    decreases pids.len(),
{
    if pids.len() == 0 {
        Seq::empty()
    } else {
        dead_events(pids.drop_last(), live, plugins, application) + if live.contains(pids.last()) {
            Seq::empty()
        } else {
            plugins.map_values(|pl: Seq<char>| (pl, application))
        }
    }
}

/// The termination notifications for a process table, entry by entry.
pub open spec fn termination_events(
    entries: Seq<(String, Vec<u32>)>,
    live: Seq<u32>,
    plugins: Map<Seq<char>, Seq<Seq<char>>>,
) -> Seq<(Seq<char>, Seq<char>)>
    decreases entries.len(),
{
    if entries.len() == 0 {
        Seq::empty()
    } else {
        let e = entries.last();
        termination_events(entries.drop_last(), live, plugins) + dead_events(e.1@, live, or_empty(plugins, e.0@), e.0@)
    }
}

/// The processes of the list that are still running.
pub open spec fn running_only(pids: Seq<u32>, live: Seq<u32>) -> Seq<u32> {
    pids.filter(|pid: u32| live.contains(pid))
}

/// The process table with the processes that are no longer running
/// removed; applications keep their (possibly empty) lists.
pub open spec fn pruned(processes: Map<Seq<char>, Seq<u32>>, live: Seq<u32>) -> Map<Seq<char>, Seq<u32>> {
    Map::new(|k: Seq<char>| processes.contains_key(k), |k: Seq<char>| running_only(processes[k], live))
}

/// The identifiers of the running processes named `application`, in order.
pub open spec fn pids_named(running: Seq<(String, u32)>, application: Seq<char>) -> Seq<u32>
    decreases running.len(),
{
    if running.len() == 0 {
        Seq::empty()
    } else {
        let r = pids_named(running.drop_last(), application);
        if running.last().0@ == application {
            r.push(running.last().1)
        } else {
            r
        }
    }
}

/// `known` with each candidate appended that it does not hold yet.
pub open spec fn add_new(known: Seq<u32>, candidates: Seq<u32>) -> Seq<u32>
    decreases candidates.len(),
{
    if candidates.len() == 0 {
        known
    } else {
        let k = add_new(known, candidates.drop_last());
        if k.contains(candidates.last()) {
            k
        } else {
            k.push(candidates.last())
        }
    }
}

/// The launch notifications for the candidates that [`add_new`] appends:
/// one `(plugin, application)` per plugin, for each new process.
pub open spec fn new_launch_events(
    known: Seq<u32>,
    candidates: Seq<u32>,
    plugins: Seq<Seq<char>>,
    application: Seq<char>,
) -> Seq<(Seq<char>, Seq<char>)>
    decreases candidates.len(),
{
    if candidates.len() == 0 {
        Seq::empty()
    } else {
        let k = add_new(known, candidates.drop_last());
        new_launch_events(known, candidates.drop_last(), plugins, application) + if k.contains(candidates.last()) {
            Seq::empty()
        } else {
            plugins.map_values(|pl: Seq<char>| (pl, application))
        }
    }
}

/// The process table after recording the running processes of each
/// monitored application (entry by entry of the plugin table); an
/// application gets a list once a process of it is seen.
pub open spec fn recorded(
    processes: Map<Seq<char>, Seq<u32>>,
    monitored: Seq<(String, Vec<String>)>,
    running: Seq<(String, u32)>,
) -> Map<Seq<char>, Seq<u32>>
    decreases monitored.len(),
{
    if monitored.len() == 0 {
        processes
    } else {
        let m = recorded(processes, monitored.drop_last(), running);
        let a = monitored.last().0@;
        let candidates = pids_named(running, a);
        if candidates.len() == 0 {
            m
        } else {
            m.insert(a, add_new(or_empty(m, a), candidates))
        }
    }
}

/// The launch notifications of recording the running processes, entry by
/// entry of the plugin table.
pub open spec fn recorded_events(
    processes: Map<Seq<char>, Seq<u32>>,
    monitored: Seq<(String, Vec<String>)>,
    running: Seq<(String, u32)>,
) -> Seq<(Seq<char>, Seq<char>)>
    decreases monitored.len(),
{
    if monitored.len() == 0 {
        Seq::empty()
    } else {
        let m = recorded(processes, monitored.drop_last(), running);
        let e = monitored.last();
        recorded_events(processes, monitored.drop_last(), running) + new_launch_events(
            or_empty(m, e.0@),
            pids_named(running, e.0@),
            e.1.deep_view(),
            e.0@,
        )
    }
}

/// No process identifier is listed twice.
pub open spec fn distinct_pids(pids: Seq<u32>) -> bool {
    forall|i: int, j: int| 0 <= i < j < pids.len() ==> pids[i] != pids[j]
}

/// Plugin `plugin` starts monitoring `applications`. Returns the launch
/// notifications owed to it for processes already seen running.
pub fn start_monitoring(monitor: &mut ApplicationMonitor, plugin: &String, applications: &Vec<String>) -> (launches: Vec<(String, String)>)
    requires
        old(monitor).wf(),
    ensures
        final(monitor).wf(),
        final(monitor).plugins() == started(old(monitor).plugins(), applications.deep_view(), plugin@),
        final(monitor).processes() == old(monitor).processes(),
        launches.deep_view() == launch_events(old(monitor).processes(), applications.deep_view(), plugin@),
{
    let ghost m0 = monitor.plugins();
    let ghost apps = applications.deep_view();
    let mut launches: Vec<(String, String)> = Vec::new();
    let mut i: usize = 0;
    while i < applications.len()
        invariant
            i <= applications@.len(),
            apps == applications.deep_view(),
            monitor.wf(),
            monitor.plugins() == started(m0, apps.take(i as int), plugin@),
            monitor.processes() == old(monitor).processes(),
            launches.deep_view() == launch_events(monitor.processes(), apps.take(i as int), plugin@),
        decreases applications.len() - i,
    {
        let application = &applications[i];
        let ghost m1 = monitor.plugins();
        assert(apps[i as int] == application@);
        assert(apps.take(i + 1).drop_last() =~= apps.take(i as int));
        match find_key(&monitor.plugins, application) {
            Some(j) => {
                let ghost before = monitor.plugins@;
                proof {
                    lemma_assoc_value(before, j as int);
                }
                let (key, mut list) = monitor.plugins.remove(j);
                list.push(plugin.clone());
                let ghost entry = (key, list);
                monitor.plugins.insert(j, (key, list));
                proof {
                    assert(monitor.plugins@ =~= before.update(j as int, entry));
                    lemma_assoc_update(before, j as int, entry);
                    assert(entry.1.deep_view() =~= before[j as int].1.deep_view().push(plugin@));
                    assert(monitor.plugins() =~= m1.insert(application@, or_empty(m1, application@).push(plugin@)));
                }
            },
            None => {
                let ghost before = monitor.plugins@;
                let mut list: Vec<String> = Vec::new();
                list.push(plugin.clone());
                let name = application.clone();
                let ghost entry = (name, list);
                monitor.plugins.push((name, list));
                proof {
                    lemma_assoc_dom(before, application@);
                    lemma_assoc_push(before, entry);
                    assert(monitor.plugins@ == before.push(entry));
                    assert(entry.1.deep_view() =~= seq![plugin@]);
                    assert(or_empty(m1, application@) =~= Seq::<Seq<char>>::empty());
                    assert(monitor.plugins() =~= m1.insert(application@, or_empty(m1, application@).push(plugin@)));
                }
            },
        }
        proof {
            assert forall|k: Seq<char>| #[trigger] monitor.plugins().contains_key(k) implies monitor.plugins()[k].len() > 0 by {
                if k != application@ {
                    assert(m1.contains_key(k));
                }
            }
        }
        let ghost events_before = launches.deep_view();
        let count: usize = match find_key(&monitor.processes, application) {
            Some(j) => {
                proof {
                    lemma_assoc_value(monitor.processes@, j as int);
                }
                monitor.processes[j].1.len()
            },
            None => {
                proof {
                    lemma_assoc_dom(monitor.processes@, application@);
                }
                0
            },
        };
        assert(count == or_empty(monitor.processes(), application@).len());
        let mut c: usize = 0;
        while c < count
            invariant
                c <= count,
                launches.deep_view() == events_before + Seq::new(c as nat, |_i: int| (plugin@, application@)),
            decreases count - c,
        {
            let ghost prev = launches.deep_view();
            launches.push((plugin.clone(), application.clone()));
            assert(launches.deep_view() =~= prev.push((plugin@, application@)));
            assert(events_before + Seq::new((c + 1) as nat, |_i: int| (plugin@, application@)) =~= (events_before
                + Seq::new(c as nat, |_i: int| (plugin@, application@))).push((plugin@, application@)));
            c = c + 1;
        }
        i = i + 1;
    }
    assert(apps.take(applications@.len() as int) =~= apps);
    launches
}

/// Plugin `plugin` stops monitoring: it leaves every application's list,
/// and applications that no plugin monitors any more are dropped.
pub fn stop_monitoring(monitor: &mut ApplicationMonitor, plugin: &String)
    requires
        old(monitor).wf(),
    ensures
        final(monitor).wf(),
        final(monitor).plugins() == stopped(old(monitor).plugins(), plugin@),
        final(monitor).processes() == old(monitor).processes(),
{
    let ghost old_entries = monitor.plugins@;
    let mut kept: Vec<(String, Vec<String>)> = Vec::new();
    let mut i: usize = 0;
    while i < monitor.plugins.len()
        invariant
            monitor.plugins@ == old_entries,
            keys_unique(old_entries),
            i <= old_entries.len(),
            keys_unique(kept@),
            forall|a: int| 0 <= a < kept@.len() ==> exists|b: int| 0 <= b < i && #[trigger] old_entries[b].0@ == #[trigger] kept@[a].0@,
            assoc_map(kept@) == stopped(assoc_map(old_entries.take(i as int)), plugin@),
        decreases old_entries.len() - i,
    {
        let ghost m = assoc_map(old_entries.take(i as int));
        let ghost key = old_entries[i as int].0@;
        let list = &monitor.plugins[i].1;
        let mut rest: Vec<String> = Vec::new();
        let mut j: usize = 0;
        while j < list.len()
            invariant
                j <= list@.len(),
                rest.deep_view() == without(list.deep_view().take(j as int), plugin@),
            decreases list.len() - j,
        {
            proof {
                lemma_without_push(list.deep_view().take(j as int), plugin@, list@[j as int]@);
                assert(list.deep_view().take(j + 1) =~= list.deep_view().take(j as int).push(list@[j as int]@));
            }
            if list[j] != *plugin {
                let ghost prev = rest.deep_view();
                rest.push(list[j].clone());
                assert(rest.deep_view() =~= prev.push(list@[j as int]@));
            }
            j = j + 1;
        }
        assert(list.deep_view().take(list@.len() as int) =~= list.deep_view());
        proof {
            assert(old_entries.take(i + 1).drop_last() =~= old_entries.take(i as int));
            assert(!has_key(kept@, key)) by {
                if has_key(kept@, key) {
                    let a = choose|a: int| 0 <= a < kept@.len() && #[trigger] kept@[a].0@ == key;
                    let b = choose|b: int| 0 <= b < i && #[trigger] old_entries[b].0@ == kept@[a].0@;
                    assert(old_entries[b].0@ != old_entries[i as int].0@);
                }
            }
            assert(!m.contains_key(key)) by {
                lemma_assoc_dom(old_entries.take(i as int), key);
                if has_key(old_entries.take(i as int), key) {
                    let b = choose|b: int| 0 <= b < i && #[trigger] old_entries.take(i as int)[b].0@ == key;
                    assert(old_entries[b].0@ != old_entries[i as int].0@);
                }
            }
        }
        if rest.len() > 0 {
            let ghost before = kept@;
            let name = monitor.plugins[i].0.clone();
            let ghost entry = (name, rest);
            kept.push((name, rest));
            proof {
                lemma_assoc_push(before, entry);
                assert(assoc_map(kept@) =~= stopped(assoc_map(old_entries.take(i + 1)), plugin@));
                assert forall|a: int| 0 <= a < kept@.len() implies exists|b: int| 0 <= b < i + 1 && #[trigger] old_entries[b].0@ == #[trigger] kept@[a].0@ by {
                    if a < before.len() {
                        assert(kept@[a] == before[a]);
                    } else {
                        assert(old_entries[i as int].0@ == kept@[a].0@);
                    }
                }
            }
        } else {
            proof {
                assert(assoc_map(kept@) =~= stopped(assoc_map(old_entries.take(i + 1)), plugin@));
            }
        }
        i = i + 1;
    }
    assert(old_entries.take(old_entries.len() as int) =~= old_entries);
    monitor.plugins = kept;
    proof {
        assert forall|k: Seq<char>| #[trigger] monitor.plugins().contains_key(k) implies monitor.plugins()[k].len() > 0 by {}
    }
}

/// Every process list of the table is free of duplicates.
pub open spec fn all_distinct(processes: Map<Seq<char>, Seq<u32>>) -> bool {
    forall|k: Seq<char>| #[trigger] processes.contains_key(k) ==> distinct_pids(processes[k])
}

/// Appending only what is not listed yet keeps a list free of duplicates,
/// and the result lists exactly what either held.
pub proof fn lemma_add_new_distinct(known: Seq<u32>, candidates: Seq<u32>)
    requires
        distinct_pids(known),
    ensures
        distinct_pids(add_new(known, candidates)),
        forall|pid: u32| #[trigger] add_new(known, candidates).contains(pid) <==> (known.contains(pid) || candidates.contains(pid)),
    decreases candidates.len(),
{
    if candidates.len() > 0 {
        let d = candidates.drop_last();
        let x = candidates.last();
        lemma_add_new_distinct(known, d);
        let k = add_new(known, d);
        assert forall|pid: u32| #[trigger] add_new(known, candidates).contains(pid) <==> (known.contains(pid)
            || candidates.contains(pid)) by {
            if candidates.contains(pid) && !d.contains(pid) {
                let i = choose|i: int| 0 <= i < candidates.len() && candidates[i] == pid;
                if i < candidates.len() - 1 {
                    assert(d[i] == pid);
                }
                assert(pid == x);
                if !k.contains(x) {
                    assert(k.push(x)[k.len() as int] == x);
                }
            }
            if d.contains(pid) {
                let i = choose|i: int| 0 <= i < d.len() && d[i] == pid;
                assert(candidates[i] == pid);
            }
            if !k.contains(x) && k.push(x).contains(pid) && pid != x {
                let i = choose|i: int| 0 <= i < k.push(x).len() && k.push(x)[i] == pid;
                assert(k[i] == pid);
            }
            if !k.contains(x) && k.contains(pid) {
                let i = choose|i: int| 0 <= i < k.len() && k[i] == pid;
                assert(k.push(x)[i] == pid);
            }
            if pid == x {
                assert(candidates[candidates.len() - 1] == pid);
            }
        }
    }
}

proof fn lemma_filter_distinct(pids: Seq<u32>, live: Seq<u32>)
    requires
        distinct_pids(pids),
    ensures
        distinct_pids(running_only(pids, live)),
        forall|pid: u32| #[trigger] running_only(pids, live).contains(pid) ==> pids.contains(pid),
    decreases pids.len(),
{
    reveal(Seq::filter);
    let f = |p: u32| live.contains(p);
    if pids.len() > 0 {
        let d = pids.drop_last();
        assert(distinct_pids(d)) by {
            assert forall|i: int, j: int| 0 <= i < j < d.len() implies d[i] != d[j] by {
                assert(d[i] == pids[i] && d[j] == pids[j]);
            }
        }
        lemma_filter_distinct(d, live);
        let fd = d.filter(f);
        assert forall|pid: u32| #[trigger] running_only(pids, live).contains(pid) implies pids.contains(pid) by {
            if fd.contains(pid) {
                let i = choose|i: int| 0 <= i < d.len() && d[i] == pid;
                assert(pids[i] == pid);
            } else {
                assert(pids[pids.len() - 1] == pids.last());
                if f(pids.last()) {
                    let i = choose|i: int| 0 <= i < fd.push(pids.last()).len() && fd.push(pids.last())[i] == pid;
                    if i < fd.len() {
                        assert(fd[i] == pid);
                    }
                }
            }
        }
        if f(pids.last()) {
            assert(!fd.contains(pids.last())) by {
                if fd.contains(pids.last()) {
                    let i = choose|i: int| 0 <= i < d.len() && d[i] == pids.last();
                    assert(pids[i] == pids[pids.len() - 1]);
                }
            }
            assert forall|i: int, j: int| 0 <= i < j < fd.push(pids.last()).len() implies fd.push(pids.last())[i]
                != fd.push(pids.last())[j] by {
                if j == fd.len() {
                    assert(fd[i] == fd.push(pids.last())[i]);
                    assert(fd.contains(fd[i]));
                } else {
                    assert(fd[i] == fd.push(pids.last())[i] && fd[j] == fd.push(pids.last())[j]);
                }
            }
        }
    }
}

/// Pruning the processes that are no longer running keeps every list free
/// of duplicates.
pub proof fn lemma_pruned_distinct(processes: Map<Seq<char>, Seq<u32>>, live: Seq<u32>)
    requires
        all_distinct(processes),
    ensures
        all_distinct(pruned(processes, live)),
{
    assert forall|k: Seq<char>| #[trigger] pruned(processes, live).contains_key(k) implies distinct_pids(
        pruned(processes, live)[k],
    ) by {
        lemma_filter_distinct(processes[k], live);
    }
}

/// Recording running processes keeps every list free of duplicates: a
/// process is listed, and announced, once.
pub proof fn lemma_recorded_distinct(
    processes: Map<Seq<char>, Seq<u32>>,
    monitored: Seq<(String, Vec<String>)>,
    running: Seq<(String, u32)>,
)
    requires
        all_distinct(processes),
    ensures
        all_distinct(recorded(processes, monitored, running)),
    decreases monitored.len(),
{
    if monitored.len() > 0 {
        let d = monitored.drop_last();
        lemma_recorded_distinct(processes, d, running);
        let m = recorded(processes, d, running);
        let a = monitored.last().0@;
        assert(distinct_pids(or_empty(m, a)));
        lemma_add_new_distinct(or_empty(m, a), pids_named(running, a));
    }
}

/// Block `block` of `count` repetitions of `plugins`, each paired with
/// `application`: entry `i` of the whole names plugin `i % plugins.len()`.
proof fn lemma_repeated_block(count: int, n: int, i: int)
    requires
        n > 0,
        count >= 0,
        count * n <= i < count * n + n,
    ensures
        i % n == i - count * n,
{
    lemma_fundamental_div_mod_converse(i, n, count, i - count * n);
}

/// Whether a process is missing from the `live` processes.
pub open spec fn no_longer_running(live: Seq<u32>) -> spec_fn(u32) -> bool {
    |pid: u32| !live.contains(pid)
}

/// The termination notifications for one application's processes: for
/// every listed process that is no longer running, each monitoring plugin
/// is told once, plugins in their order; nothing else is sent.
pub proof fn lemma_dead_events_per_plugin(
    pids: Seq<u32>,
    live: Seq<u32>,
    plugins: Seq<Seq<char>>,
    application: Seq<char>,
)
    ensures
        dead_events(pids, live, plugins, application).len() == pids.filter(no_longer_running(live)).len()
            * plugins.len(),
        forall|i: int|
            0 <= i < dead_events(pids, live, plugins, application).len() ==> #[trigger] dead_events(
                pids,
                live,
                plugins,
                application,
            )[i] == (plugins[i % plugins.len() as int], application),
    decreases pids.len(),
{
    reveal(Seq::filter);
    let gone = no_longer_running(live);
    if pids.len() > 0 {
        let d = pids.drop_last();
        lemma_dead_events_per_plugin(d, live, plugins, application);
        let before = dead_events(d, live, plugins, application);
        let events = dead_events(pids, live, plugins, application);
        let c = d.filter(gone).len() as int;
        let n = plugins.len() as int;
        assert(pids.filter(gone) == if gone(pids.last()) {
            d.filter(gone).push(pids.last())
        } else {
            d.filter(gone)
        });
        if gone(pids.last()) {
            assert(pids.filter(gone).len() == c + 1);
            assert(events.len() == (c + 1) * n) by (nonlinear_arith)
                requires
                    events.len() == c * n + n,
            ;
            assert forall|i: int| 0 <= i < events.len() implies #[trigger] events[i] == (
                plugins[i % n],
                application,
            ) by {
                if i < before.len() {
                    assert(events[i] == before[i]);
                } else {
                    lemma_repeated_block(c, n, i);
                }
            }
        } else {
            assert(events =~= before);
            assert(pids.filter(gone).len() == c);
        }
    } else {
        assert(pids.filter(gone).len() == 0);
        assert(0 * (plugins.len() as int) == 0);
    }
}

/// Recording candidate processes keeps the known ones first, as they were,
/// and appends the new ones; candidates that are all known change nothing.
pub proof fn lemma_add_new_keeps_known(known: Seq<u32>, candidates: Seq<u32>)
    ensures
        add_new(known, candidates).len() >= known.len(),
        add_new(known, candidates).subrange(0, known.len() as int) == known,
        (forall|i: int| 0 <= i < candidates.len() ==> known.contains(#[trigger] candidates[i])) ==> add_new(
            known,
            candidates,
        ) == known,
    decreases candidates.len(),
{
    if candidates.len() > 0 {
        let d = candidates.drop_last();
        lemma_add_new_keeps_known(known, d);
        let k = add_new(known, d);
        if !k.contains(candidates.last()) {
            assert(k.push(candidates.last()).subrange(0, known.len() as int) =~= k.subrange(0, known.len() as int));
        }
        if forall|i: int| 0 <= i < candidates.len() ==> known.contains(#[trigger] candidates[i]) {
            assert forall|i: int| 0 <= i < d.len() implies known.contains(#[trigger] d[i]) by {
                assert(d[i] == candidates[i]);
            }
            assert(known.contains(candidates[candidates.len() - 1]));
        }
    }
}

/// The launch notifications for one application's running processes: for
/// every process that was not known yet, each monitoring plugin is told
/// once, plugins in their order; known processes trigger nothing.
pub proof fn lemma_launch_events_per_plugin(
    known: Seq<u32>,
    candidates: Seq<u32>,
    plugins: Seq<Seq<char>>,
    application: Seq<char>,
)
    ensures
        new_launch_events(known, candidates, plugins, application).len() == (add_new(known, candidates).len()
            - known.len()) * plugins.len(),
        forall|i: int|
            0 <= i < new_launch_events(known, candidates, plugins, application).len() ==> #[trigger] new_launch_events(
                known,
                candidates,
                plugins,
                application,
            )[i] == (plugins[i % plugins.len() as int], application),
    decreases candidates.len(),
{
    lemma_add_new_keeps_known(known, candidates);
    if candidates.len() > 0 {
        let d = candidates.drop_last();
        lemma_launch_events_per_plugin(known, d, plugins, application);
        lemma_add_new_keeps_known(known, d);
        let k = add_new(known, d);
        let before = new_launch_events(known, d, plugins, application);
        let events = new_launch_events(known, candidates, plugins, application);
        let c = k.len() - known.len();
        let n = plugins.len() as int;
        if !k.contains(candidates.last()) {
            assert(events.len() == (c + 1) * n) by (nonlinear_arith)
                requires
                    events.len() == c * n + n,
            ;
            assert forall|i: int| 0 <= i < events.len() implies #[trigger] events[i] == (
                plugins[i % n],
                application,
            ) by {
                if i < before.len() {
                    assert(events[i] == before[i]);
                } else {
                    lemma_repeated_block(c, n, i);
                }
            }
        } else {
            assert(events =~= before);
        }
    }
}

/// How often `x` occurs in `s`.
pub open spec fn occurrences<T>(s: Seq<T>, x: T) -> nat
    decreases s.len(),
{
    if s.len() == 0 {
        0
    } else {
        occurrences(s.drop_last(), x) + if s.last() == x {
            1nat
        } else {
            0nat
        }
    }
}

proof fn lemma_occurrences_concat<T>(a: Seq<T>, b: Seq<T>, x: T)
    ensures
        occurrences(a + b, x) == occurrences(a, x) + occurrences(b, x),
    decreases b.len(),
{
    if b.len() > 0 {
        lemma_occurrences_concat(a, b.drop_last(), x);
        assert((a + b).drop_last() =~= a + b.drop_last());
        assert((a + b).last() == b.last());
    } else {
        assert(a + b =~= a);
    }
}

/// One notification per plugin, all about `tag`: a pair `(p, a)` occurs as
/// often as `p` is listed, and only where `tag` is `a`.
proof fn lemma_occurrences_tagged(
    tagged: Seq<(Seq<char>, Seq<char>)>,
    plugins: Seq<Seq<char>>,
    tag: Seq<char>,
    p: Seq<char>,
    a: Seq<char>,
)
    requires
        tagged.len() == plugins.len(),
        forall|i: int| 0 <= i < tagged.len() ==> #[trigger] tagged[i] == (plugins[i], tag),
    ensures
        occurrences(tagged, (p, a)) == if tag == a {
            occurrences(plugins, p)
        } else {
            0
        },
    decreases tagged.len(),
{
    if tagged.len() > 0 {
        let (t, q) = (tagged.drop_last(), plugins.drop_last());
        assert forall|i: int| 0 <= i < t.len() implies #[trigger] t[i] == (q[i], tag) by {
            assert(t[i] == tagged[i]);
        }
        lemma_occurrences_tagged(t, q, tag, p, a);
        assert(tagged[tagged.len() - 1] == (plugins[plugins.len() - 1], tag));
    }
}

/// `(c + 1) * k == c * k + k`.
proof fn lemma_one_more_block(c: int, k: int)
    ensures
        (c + 1) * k == c * k + k,
{
    assert((c + 1) * k == c * k + k) by (nonlinear_arith);
}

/// How often one plugin is told of one application's terminations.
proof fn lemma_dead_events_count(
    pids: Seq<u32>,
    live: Seq<u32>,
    plugins: Seq<Seq<char>>,
    tag: Seq<char>,
    p: Seq<char>,
    a: Seq<char>,
)
    ensures
        occurrences(dead_events(pids, live, plugins, tag), (p, a)) == if tag == a {
            pids.filter(no_longer_running(live)).len() * occurrences(plugins, p)
        } else {
            0
        },
    decreases pids.len(),
{
    reveal(Seq::filter);
    let gone = no_longer_running(live);
    if pids.len() > 0 {
        let d = pids.drop_last();
        lemma_dead_events_count(d, live, plugins, tag, p, a);
        let whole = dead_events(pids, live, plugins, tag);
        let before = dead_events(d, live, plugins, tag);
        let extra = whole.subrange(before.len() as int, whole.len() as int);
        assert(whole =~= before + extra);
        lemma_occurrences_concat(before, extra, (p, a));
        let c = d.filter(gone).len() as int;
        if gone(pids.last()) {
            assert(pids.filter(gone).len() == c + 1);
            assert forall|i: int| 0 <= i < extra.len() implies #[trigger] extra[i] == (plugins[i], tag) by {
                assert(extra[i] == whole[before.len() + i]);
            }
            lemma_occurrences_tagged(extra, plugins, tag, p, a);
            lemma_one_more_block(c, occurrences(plugins, p) as int);
        } else {
            assert(pids.filter(gone).len() == c);
            assert(extra.len() == 0);
        }
    } else {
        assert(pids.filter(gone).len() == 0);
        assert(0 * occurrences(plugins, p) == 0);
    }
}

/// How often one plugin is told of one application's launches.
proof fn lemma_launch_events_count(
    known: Seq<u32>,
    candidates: Seq<u32>,
    plugins: Seq<Seq<char>>,
    tag: Seq<char>,
    p: Seq<char>,
    a: Seq<char>,
)
    ensures
        occurrences(new_launch_events(known, candidates, plugins, tag), (p, a)) == if tag == a {
            (add_new(known, candidates).len() - known.len()) * occurrences(plugins, p)
        } else {
            0
        },
    decreases candidates.len(),
{
    lemma_add_new_keeps_known(known, candidates);
    if candidates.len() > 0 {
        let d = candidates.drop_last();
        lemma_launch_events_count(known, d, plugins, tag, p, a);
        lemma_add_new_keeps_known(known, d);
        let k = add_new(known, d);
        let whole = new_launch_events(known, candidates, plugins, tag);
        let before = new_launch_events(known, d, plugins, tag);
        let extra = whole.subrange(before.len() as int, whole.len() as int);
        assert(whole =~= before + extra);
        lemma_occurrences_concat(before, extra, (p, a));
        let c = k.len() - known.len();
        if !k.contains(candidates.last()) {
            assert forall|i: int| 0 <= i < extra.len() implies #[trigger] extra[i] == (plugins[i], tag) by {
                assert(extra[i] == whole[before.len() + i]);
            }
            lemma_occurrences_tagged(extra, plugins, tag, p, a);
            lemma_one_more_block(c, occurrences(plugins, p) as int);
        } else {
            assert(extra.len() == 0);
        }
    } else {
        assert(0 * occurrences(plugins, p) == 0);
    }
}

proof fn lemma_keys_unique_prefix<V>(e: Seq<(String, V)>)
    requires
        keys_unique(e),
        e.len() > 0,
    ensures
        keys_unique(e.drop_last()),
{
    let d = e.drop_last();
    assert forall|i: int, j: int| 0 <= i < j < d.len() implies #[trigger] d[i].0@ != #[trigger] d[j].0@ by {
        assert(d[i] == e[i] && d[j] == e[j]);
    }
}

/// With distinct keys, the last entry's key is not among the others.
proof fn lemma_last_key_fresh<V>(e: Seq<(String, V)>)
    requires
        keys_unique(e),
        e.len() > 0,
    ensures
        !has_key(e.drop_last(), e.last().0@),
{
    let d = e.drop_last();
    if has_key(d, e.last().0@) {
        let i = choose|i: int| 0 <= i < d.len() && #[trigger] d[i].0@ == e.last().0@;
        assert(e[i].0@ != e[e.len() - 1].0@);
    }
}

/// How often one plugin is told of one application's terminations over a
/// whole process table.
proof fn lemma_termination_count(
    entries: Seq<(String, Vec<u32>)>,
    live: Seq<u32>,
    plugins: Map<Seq<char>, Seq<Seq<char>>>,
    p: Seq<char>,
    a: Seq<char>,
)
    requires
        keys_unique(entries),
    ensures
        occurrences(termination_events(entries, live, plugins), (p, a)) == or_empty(assoc_map(entries), a).filter(
            no_longer_running(live),
        ).len() * occurrences(or_empty(plugins, a), p),
    decreases entries.len(),
{
    reveal(Seq::filter);
    if entries.len() > 0 {
        let d = entries.drop_last();
        let e = entries.last();
        lemma_keys_unique_prefix(entries);
        lemma_termination_count(d, live, plugins, p, a);
        lemma_occurrences_concat(
            termination_events(d, live, plugins),
            dead_events(e.1@, live, or_empty(plugins, e.0@), e.0@),
            (p, a),
        );
        lemma_dead_events_count(e.1@, live, or_empty(plugins, e.0@), e.0@, p, a);
        assert(e.1.deep_view() =~= e.1@);
        if e.0@ == a {
            lemma_last_key_fresh(entries);
            lemma_assoc_dom(d, a);
            assert(Seq::<u32>::empty().filter(no_longer_running(live)).len() == 0);
            assert(0 * occurrences(or_empty(plugins, a), p) == 0);
        }
    } else {
        assert(Seq::<u32>::empty().filter(no_longer_running(live)).len() == 0);
        assert(0 * occurrences(or_empty(plugins, a), p) == 0);
    }
}

/// Recording the running processes of each monitored application, over the
/// whole plugin table, for one application `a`: its list gains its new
/// processes, and each of its plugins is told once per new process.
proof fn lemma_recorded_count(
    processes: Map<Seq<char>, Seq<u32>>,
    monitored: Seq<(String, Vec<String>)>,
    running: Seq<(String, u32)>,
    p: Seq<char>,
    a: Seq<char>,
)
    requires
        keys_unique(monitored),
    ensures
        or_empty(recorded(processes, monitored, running), a) == if has_key(monitored, a) {
            add_new(or_empty(processes, a), pids_named(running, a))
        } else {
            or_empty(processes, a)
        },
        occurrences(recorded_events(processes, monitored, running), (p, a)) == if has_key(monitored, a) {
            (add_new(or_empty(processes, a), pids_named(running, a)).len() - or_empty(processes, a).len())
                * occurrences(or_empty(assoc_map(monitored), a), p)
        } else {
            0
        },
    decreases monitored.len(),
{
    if monitored.len() > 0 {
        let d = monitored.drop_last();
        let e = monitored.last();
        lemma_keys_unique_prefix(monitored);
        lemma_recorded_count(processes, d, running, p, a);
        let m = recorded(processes, d, running);
        let candidates = pids_named(running, e.0@);
        lemma_occurrences_concat(
            recorded_events(processes, d, running),
            new_launch_events(or_empty(m, e.0@), candidates, e.1.deep_view(), e.0@),
            (p, a),
        );
        lemma_launch_events_count(or_empty(m, e.0@), candidates, e.1.deep_view(), e.0@, p, a);
        lemma_assoc_dom(monitored, a);
        lemma_assoc_dom(d, a);
        if e.0@ == a {
            lemma_last_key_fresh(monitored);
            assert(monitored[monitored.len() - 1].0@ == a);
        } else if has_key(monitored, a) {
            let i = choose|i: int| 0 <= i < monitored.len() && #[trigger] monitored[i].0@ == a;
            assert(i != monitored.len() - 1);
            assert(d[i].0@ == a);
        } else {
            if has_key(d, a) {
                let i = choose|i: int| 0 <= i < d.len() && #[trigger] d[i].0@ == a;
                assert(monitored[i].0@ == a);
            }
        }
    }
}

/// One pass of the process monitor, as `retire_dead_processes` and then
/// `record_launches` make it, seen from one monitored `application`:
/// - its watched processes that are gone are dropped, and the others kept;
/// - each monitoring `plugin` is told of a termination once per dropped
///   process (times the plugin's listings);
/// - the running processes named exactly `application` that were not
///   watched are added after the kept ones, which stay as they were, and
///   no process is watched twice;
/// - each monitoring `plugin` is told of a launch once per added process,
///   so processes already watched trigger nothing.
pub proof fn lemma_monitor_pass(
    monitor: ApplicationMonitor,
    live: Seq<u32>,
    running: Seq<(String, u32)>,
    application: Seq<char>,
    plugin: Seq<char>,
)
    requires
        monitor.wf(),
        all_distinct(monitor.processes()),
        monitor.plugins().contains_key(application),
    ensures
        ({
            let watched = or_empty(monitor.processes(), application);
            let plugins = monitor.plugins()[application];
            let after_retire = pruned(monitor.processes(), live);
            let terminated = termination_events(monitor.process_entries(), live, monitor.plugins());
            let after_record = recorded(after_retire, monitor.plugin_entries(), running);
            let launched = recorded_events(after_retire, monitor.plugin_entries(), running);
            let kept = or_empty(after_retire, application);
            let watched_after = or_empty(after_record, application);
            &&& forall|pid: u32| #[trigger] kept.contains(pid) <==> (watched.contains(pid) && live.contains(pid))
            &&& occurrences(terminated, (plugin, application)) == watched.filter(no_longer_running(live)).len()
                * occurrences(plugins, plugin)
            &&& watched_after.len() >= kept.len()
            &&& watched_after.subrange(0, kept.len() as int) == kept
            &&& forall|pid: u32| #[trigger] watched_after.contains(pid) <==> (kept.contains(pid) || pids_named(
                running,
                application,
            ).contains(pid))
            &&& distinct_pids(watched_after)
            &&& occurrences(launched, (plugin, application)) == (watched_after.len() - kept.len()) * occurrences(
                plugins,
                plugin,
            )
        }),
{
    let processes = monitor.processes();
    let watched = or_empty(processes, application);
    let after_retire = pruned(processes, live);
    let kept = or_empty(after_retire, application);
    lemma_termination_count(monitor.processes@, live, monitor.plugins(), plugin, application);
    lemma_assoc_dom(monitor.plugins@, application);
    lemma_recorded_count(after_retire, monitor.plugins@, running, plugin, application);
    lemma_pruned_distinct(processes, live);
    assert(distinct_pids(kept));
    lemma_add_new_distinct(kept, pids_named(running, application));
    lemma_add_new_keeps_known(kept, pids_named(running, application));
    assert forall|pid: u32| #[trigger] kept.contains(pid) <==> (watched.contains(pid) && live.contains(pid)) by {
        if processes.contains_key(application) {
            let f = |q: u32| live.contains(q);
            lemma_filter_distinct(watched, live);
            if watched.contains(pid) && live.contains(pid) {
                let i = choose|i: int| 0 <= i < watched.len() && watched[i] == pid;
                watched.lemma_filter_contains(f, i);
            }
            if kept.contains(pid) {
                let i = choose|i: int| 0 <= i < kept.len() && kept[i] == pid;
                watched.lemma_filter_pred(f, i);
            }
        }
    }
}

/// Once a plugin stops, no application lists it any more, and every
/// application left is still monitored by some plugin.
pub proof fn lemma_stopped_plugin_gone(m: Map<Seq<char>, Seq<Seq<char>>>, p: Seq<char>)
    ensures
        forall|k: Seq<char>| #[trigger] stopped(m, p).contains_key(k) ==> !stopped(m, p)[k].contains(p),
        all_monitored(stopped(m, p)),
{
    assert forall|k: Seq<char>| #[trigger] stopped(m, p).contains_key(k) implies !stopped(m, p)[k].contains(p) by {
        let l = without(m[k], p);
        if l.contains(p) {
            let i = choose|i: int| 0 <= i < l.len() && l[i] == p;
            m[k].lemma_filter_pred(|x: Seq<char>| x != p, i);
        }
    }
}

} // verus!
