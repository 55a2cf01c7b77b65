//! Switching every device to a configured profile while the computer is
//! locked, and back to what each had before once it unlocks.
//!
//! The state that the application keeps behind locks is a
//! [`LockProfileState`]; the device stores are consulted by the caller, which
//! hands the library what they returned and performs what it decides.

use vstd::prelude::*;

verus! {

/// What the lock applied to a device, and what the device had before.
#[derive(Debug)]
pub struct PreviousProfile {
    pub applied: String,
    pub previous: String,
}

/// The profile to apply on lock (empty when the feature is off) and a
/// snapshot, per device, of each profile switch the lock made.
pub struct LockProfileState {
    profile_when_locked: String,
    previous_profiles: Vec<(String, PreviousProfile)>,
}

/// No two entries name the same device.
pub open spec fn devices_unique(entries: Seq<(String, PreviousProfile)>) -> bool {
    forall|i: int, j: int| 0 <= i < j < entries.len() ==> #[trigger] entries[i].0@ != #[trigger] entries[j].0@
}

/// Some entry is about `device`.
pub open spec fn has_device(entries: Seq<(String, PreviousProfile)>, device: Seq<char>) -> bool {
    exists|i: int| 0 <= i < entries.len() && #[trigger] entries[i].0@ == device
}

/// The snapshot taken for `device`, as `(applied, previous)`.
pub open spec fn snapshot_of(entries: Seq<(String, PreviousProfile)>, device: Seq<char>) -> (Seq<char>, Seq<char>) {
    let i = choose|i: int| 0 <= i < entries.len() && #[trigger] entries[i].0@ == device;
    (entries[i].1.applied@, entries[i].1.previous@)
}

/// With distinct devices, the snapshot of the device of entry `i` is entry
/// `i`'s.
pub proof fn lemma_snapshot_at(entries: Seq<(String, PreviousProfile)>, i: int)
    requires
        devices_unique(entries),
        0 <= i < entries.len(),
    ensures
        has_device(entries, entries[i].0@),
        snapshot_of(entries, entries[i].0@) == (entries[i].1.applied@, entries[i].1.previous@),
{
    let d = entries[i].0@;
    assert(entries[i].0@ == d);
    let j = choose|j: int| 0 <= j < entries.len() && #[trigger] entries[j].0@ == d;
    if j < i {
        assert(entries[j].0@ != entries[i].0@);
    } else if i < j {
        assert(entries[i].0@ != entries[j].0@);
    }
}

impl LockProfileState {
    /// The profile applied on lock; empty when the feature is off.
    pub closed spec fn profile(&self) -> Seq<char> {
        self.profile_when_locked@
    }

    /// The snapshots taken by the last lock, one per switched device.
    pub closed spec fn snapshots(&self) -> Seq<(String, PreviousProfile)> {
        self.previous_profiles@
    }

    /// The state is well formed: one snapshot at most per device.
    pub closed spec fn wf(&self) -> bool {
        devices_unique(self.previous_profiles@)
    }

    /// No profile configured and no snapshot taken.
    pub fn new() -> (state: Self)
        ensures
            state.wf(),
            state.profile().len() == 0,
            state.snapshots().len() == 0,
    {
        LockProfileState { profile_when_locked: String::new(), previous_profiles: Vec::new() }
    }

    /// The configured lock profile.
    pub fn profile_when_locked(&self) -> (profile: &String)
        ensures
            profile@ == self.profile(),
    {
        &self.profile_when_locked
    }

    /// The profile to apply when the computer locks: `None` when the feature
    /// is disabled (empty profile), so that nothing is touched.
    pub fn lock_target(&self) -> (target: Option<String>)
        ensures
            match target {
                Some(p) => p@ == self.profile() && p@.len() > 0,
                None => self.profile().len() == 0,
            },
    {
        if self.profile_when_locked.as_str().is_empty() {
            None
        } else {
            Some(self.profile_when_locked.clone())
        }
    }

    /// Records that the lock switched `device` from `previous` to `applied`;
    /// a snapshot already held for the device is replaced.
    pub fn record_applied(&mut self, device: String, applied: String, previous: String)
        requires
            old(self).wf(),
        ensures
            final(self).wf(),
            final(self).profile() == old(self).profile(),
            has_device(final(self).snapshots(), device@),
            snapshot_of(final(self).snapshots(), device@) == (applied@, previous@),
            forall|d: Seq<char>|
                d != device@ ==> (has_device(final(self).snapshots(), d) == has_device(old(self).snapshots(), d)
                    && (has_device(old(self).snapshots(), d) ==> snapshot_of(final(self).snapshots(), d)
                    == snapshot_of(old(self).snapshots(), d))),
    {
        let ghost old_entries = self.previous_profiles@;
        let mut i: usize = 0;
        while i < self.previous_profiles.len()
            invariant_except_break
                forall|k: int| 0 <= k < i ==> old_entries[k].0@ != device@,
            invariant
                self.previous_profiles@ == old_entries,
                i <= old_entries.len(),
            ensures
                i < old_entries.len() ==> old_entries[i as int].0@ == device@,
                i == old_entries.len() ==> forall|k: int| 0 <= k < old_entries.len() ==> old_entries[k].0@ != device@,
            decreases old_entries.len() - i,
        {
            if self.previous_profiles[i].0 == device {
                break;
            }
            i = i + 1;
        }
        let snapshot = PreviousProfile { applied, previous };
        if i < self.previous_profiles.len() {
            self.previous_profiles.set(i, (device, snapshot));
            proof {
                let e = self.previous_profiles@;
                assert forall|a: int, b: int| 0 <= a < b < e.len() implies #[trigger] e[a].0@ != #[trigger] e[b].0@ by {
                    assert(e[a].0@ == old_entries[a].0@ && e[b].0@ == old_entries[b].0@);
                }
                lemma_snapshot_at(e, i as int);
                assert forall|d: Seq<char>| d != device@ implies (has_device(e, d) == has_device(old_entries, d)
                    && (has_device(old_entries, d) ==> snapshot_of(e, d) == snapshot_of(old_entries, d))) by {
                    if has_device(old_entries, d) {
                        let j = choose|j: int| 0 <= j < old_entries.len() && #[trigger] old_entries[j].0@ == d;
                        assert(e[j] == old_entries[j]);
                        lemma_snapshot_at(e, j);
                        lemma_snapshot_at(old_entries, j);
                    }
                    if has_device(e, d) {
                        let j = choose|j: int| 0 <= j < e.len() && #[trigger] e[j].0@ == d;
                        assert(e[j] == old_entries[j]);
                    }
                }
            }
            return;
        }
        self.previous_profiles.push((device, snapshot));
        proof {
            let e = self.previous_profiles@;
            let n = old_entries.len() as int;
            assert forall|a: int, b: int| 0 <= a < b < e.len() implies #[trigger] e[a].0@ != #[trigger] e[b].0@ by {
                if b == n {
                    assert(e[a].0@ == old_entries[a].0@);
                } else {
                    assert(e[a] == old_entries[a] && e[b] == old_entries[b]);
                }
            }
            lemma_snapshot_at(e, n);
            assert forall|d: Seq<char>| d != device@ implies (has_device(e, d) == has_device(old_entries, d) && (
            has_device(old_entries, d) ==> snapshot_of(e, d) == snapshot_of(old_entries, d))) by {
                if has_device(old_entries, d) {
                    let j = choose|j: int| 0 <= j < old_entries.len() && #[trigger] old_entries[j].0@ == d;
                    assert(e[j] == old_entries[j]);
                    lemma_snapshot_at(e, j);
                    lemma_snapshot_at(old_entries, j);
                }
                if has_device(e, d) {
                    let j = choose|j: int| 0 <= j < e.len() && #[trigger] e[j].0@ == d;
                    assert(j != n);
                    assert(e[j] == old_entries[j]);
                }
            }
        }
    }

    /// Takes every snapshot out of the state, leaving none behind, as the
    /// unlock does before restoring.
    pub fn take_snapshots(&mut self) -> (snapshots: Vec<(String, PreviousProfile)>)
        requires
            old(self).wf(),
        ensures
            final(self).wf(),
            final(self).profile() == old(self).profile(),
            final(self).snapshots().len() == 0,
            snapshots@ == old(self).snapshots(),
            devices_unique(snapshots@),
    {
        let mut taken: Vec<(String, PreviousProfile)> = Vec::new();
        std::mem::swap(&mut taken, &mut self.previous_profiles);
        taken
    }
}

/// Sets the profile to apply on lock, as loaded at start-up.
pub fn init_lock_profile(state: &mut LockProfileState, initial: String)
    ensures
        final(state).profile() == initial@,
        final(state).snapshots() == old(state).snapshots(),
        final(state).wf() == old(state).wf(),
{
    state.profile_when_locked = initial;
}

/// Changes the profile to apply on lock.
pub fn update_profile_when_locked(state: &mut LockProfileState, profile: String)
    ensures
        final(state).profile() == profile@,
        final(state).snapshots() == old(state).snapshots(),
        final(state).wf() == old(state).wf(),
{
    state.profile_when_locked = profile;
}

/// The lock switches a device to `profile` only when the device has that
/// profile installed and has another one selected.
pub open spec fn lock_applies(profile: Seq<char>, installed: Seq<Seq<char>>, selected: Seq<char>) -> bool {
    installed.contains(profile) && selected != profile
}

/// On unlock a device goes back to `previous` only while it still shows
/// what the lock applied; any later change is preserved.
pub open spec fn restore_to(applied: Seq<char>, previous: Seq<char>, current: Seq<char>) -> Option<Seq<char>> {
    if current == applied {
        Some(previous)
    } else {
        None
    }
}

/// Whether the device's installed profiles include `profile`; a device
/// without it is skipped, instead of having a blank profile created for it.
pub fn has_profile_installed(profile: &String, installed: &Vec<String>) -> (r: bool)
    ensures
        r == installed@.map_values(|p: String| p@).contains(profile@),
{
    let ghost views = installed@.map_values(|p: String| p@);
    let mut i: usize = 0;
    while i < installed.len()
        invariant
            i <= installed@.len(),
            views == installed@.map_values(|p: String| p@),
            forall|k: int| 0 <= k < i ==> views[k] != profile@,
        decreases installed.len() - i,
    {
        if installed[i] == *profile {
            assert(views[i as int] == profile@);
            return true;
        }
        i = i + 1;
    }
    false
}

/// Decides, for one device with `installed` profiles and `selected`
/// currently selected, whether the lock switches it to `profile`.
pub fn should_apply_on_lock(profile: &String, installed: &Vec<String>, selected: &String) -> (r: bool)
    ensures
        r == lock_applies(profile@, installed@.map_values(|p: String| p@), selected@),
{
    has_profile_installed(profile, installed) && *selected != *profile
}

/// Decides what an unlock restores a device to, given the snapshot taken
/// at lock and the profile the device has selected now.
pub fn restore_target(snapshot: &PreviousProfile, current: &String) -> (target: Option<String>)
    ensures
        match target {
            Some(p) => restore_to(snapshot.applied@, snapshot.previous@, current@) == Some(p@),
            None => restore_to(snapshot.applied@, snapshot.previous@, current@) is None,
        },
{
    if *current == snapshot.applied {
        Some(snapshot.previous.clone())
    } else {
        None
    }
}

/// What the lock leaves a device with: the selected profile afterwards, and
/// the snapshot taken, if it switched.
pub open spec fn lock_device(profile: Seq<char>, installed: Seq<Seq<char>>, selected: Seq<char>) -> (
    Seq<char>,
    Option<(Seq<char>, Seq<char>)>,
) {
    if lock_applies(profile, installed, selected) {
        (profile, Some((profile, selected)))
    } else {
        (selected, None)
    }
}

/// What the unlock leaves a device with, given its current profile and the
/// snapshot the lock took of it.
pub open spec fn unlock_device(current: Seq<char>, snapshot: Option<(Seq<char>, Seq<char>)>) -> Seq<char> {
    match snapshot {
        Some((applied, previous)) => match restore_to(applied, previous, current) {
            Some(p) => p,
            None => current,
        },
        None => current,
    }
}

/// A lock followed by an unlock, with nothing changed in between, leaves
/// every device with the profile it had before the lock; and a profile that
/// the user selected after the lock is kept by the unlock.
pub proof fn lemma_unlock_undoes_lock(
    profile: Seq<char>,
    installed: Seq<Seq<char>>,
    selected: Seq<char>,
    changed_to: Seq<char>,
)
    ensures
        ({
            let (after_lock, snapshot) = lock_device(profile, installed, selected);
            unlock_device(after_lock, snapshot) == selected
        }),
        ({
            let (after_lock, snapshot) = lock_device(profile, installed, selected);
            changed_to != after_lock ==> unlock_device(changed_to, snapshot) == changed_to
        }),
{
}

/// Where the lock stands with one device.
#[derive(Debug)]
pub enum LockStage {
    /// The device's installed profiles were asked for.
    ListingProfiles,
    /// The device's selected profile was asked for.
    ReadingSelected,
    /// The device was asked to switch to the lock profile; it had the
    /// carried profile selected before.
    Switching(String),
    /// Nothing more is done for the device.
    Done,
}

/// What the caller saw when it did what the lock asked of it.
#[derive(Debug)]
pub enum LockEvent {
    /// The device's installed profiles, or `None` where listing them failed.
    Profiles(Option<Vec<String>>),
    /// The device's selected profile, or `None` where reading it failed.
    Selected(Option<String>),
    /// Whether switching the device to the lock profile succeeded.
    Switched(bool),
}

/// What the caller does next for the device.
#[derive(Debug)]
pub enum LockAction {
    /// Read the device's selected profile.
    ReadSelected,
    /// Switch the device to the carried profile.
    SwitchTo(String),
    /// Draw the carried profile's images on the device; the device is done.
    Render(String),
    /// Leave the device as it is; the device is done.
    Skip,
}

/// The device is finished and left as it is.
pub open spec fn left_alone(next: (LockStage, LockAction)) -> bool {
    next.0 is Done && next.1 is Skip
}

/// The lock's next stage and action for a device, given the stage it was
/// in and what the caller saw: a failed read or switch skips the device, a
/// device without the lock profile or already showing it is skipped, and
/// the images are drawn only after a switch succeeded.
pub open spec fn lock_next(stage: LockStage, event: LockEvent, profile: Seq<char>, next: (LockStage, LockAction)) -> bool {
    match stage {
        LockStage::ListingProfiles => match event {
            LockEvent::Profiles(Some(installed)) => if installed@.map_values(|p: String| p@).contains(profile) {
                next.0 is ReadingSelected && next.1 is ReadSelected
            } else {
                left_alone(next)
            },
            _ => left_alone(next),
        },
        LockStage::ReadingSelected => match event {
            LockEvent::Selected(Some(selected)) => if selected@ != profile {
                &&& next.0 matches LockStage::Switching(previous) && previous@ == selected@
                &&& next.1 matches LockAction::SwitchTo(target) && target@ == profile
            } else {
                left_alone(next)
            },
            _ => left_alone(next),
        },
        LockStage::Switching(_) => match event {
            LockEvent::Switched(true) => {
                &&& next.0 is Done
                &&& next.1 matches LockAction::Render(target) && target@ == profile
            },
            _ => left_alone(next),
        },
        LockStage::Done => left_alone(next),
    }
}

/// One step of locking `device` to `profile`: from the stage the device was
/// in and what the caller saw, the next stage and what the caller does
/// next. The device's snapshot is taken at a successful switch, and only
/// there.
pub fn lock_step(
    state: &mut LockProfileState,
    device: &String,
    profile: &String,
    stage: LockStage,
    event: LockEvent,
) -> (next: (LockStage, LockAction))
    requires
        old(state).wf(),
    ensures
        final(state).wf(),
        final(state).profile() == old(state).profile(),
        lock_next(stage, event, profile@, next),
        if stage is Switching && event matches LockEvent::Switched(true) {
            &&& has_device(final(state).snapshots(), device@)
            &&& snapshot_of(final(state).snapshots(), device@) == (profile@, stage->Switching_0@)
            &&& forall|d: Seq<char>|
                d != device@ ==> (has_device(final(state).snapshots(), d) == has_device(old(state).snapshots(), d)
                    && (has_device(old(state).snapshots(), d) ==> snapshot_of(final(state).snapshots(), d)
                    == snapshot_of(old(state).snapshots(), d)))
        } else {
            final(state).snapshots() == old(state).snapshots()
        },
{
    match stage {
        LockStage::ListingProfiles => match event {
            LockEvent::Profiles(Some(installed)) => if has_profile_installed(profile, &installed) {
                (LockStage::ReadingSelected, LockAction::ReadSelected)
            } else {
                (LockStage::Done, LockAction::Skip)
            },
            _ => (LockStage::Done, LockAction::Skip),
        },
        LockStage::ReadingSelected => match event {
            LockEvent::Selected(Some(selected)) => if selected != *profile {
                (LockStage::Switching(selected), LockAction::SwitchTo(profile.clone()))
            } else {
                (LockStage::Done, LockAction::Skip)
            },
            _ => (LockStage::Done, LockAction::Skip),
        },
        LockStage::Switching(previous) => match event {
            LockEvent::Switched(true) => {
                state.record_applied(device.clone(), profile.clone(), previous);
                (LockStage::Done, LockAction::Render(profile.clone()))
            },
            _ => (LockStage::Done, LockAction::Skip),
        },
        LockStage::Done => (LockStage::Done, LockAction::Skip),
    }
}

/// Where the unlock stands with one device whose snapshot it restores.
#[derive(Debug)]
pub enum UnlockStage {
    /// The device's selected profile was asked for.
    ReadingCurrent,
    /// The device was asked to switch back to the carried profile.
    Restoring(String),
    /// Nothing more is done for the device.
    Done,
}

/// What the caller saw when it did what the unlock asked of it.
#[derive(Debug)]
pub enum UnlockEvent {
    /// The device's selected profile, or `None` where reading it failed.
    Current(Option<String>),
    /// Whether switching the device back succeeded.
    Restored(bool),
}

/// What the caller does next for the device.
#[derive(Debug)]
pub enum UnlockAction {
    /// Switch the device to the carried profile.
    RestoreTo(String),
    /// Draw the carried profile's images on the device; the device is done.
    Render(String),
    /// Leave the device as it is; the device is done.
    Skip,
}

/// The unlock's next stage and action for a device with the given
/// snapshot: a failed read or switch skips the device, a device that no
/// longer shows what the lock applied keeps its profile, and the images are
/// drawn only after the switch back succeeded.
pub open spec fn unlock_next(
    snapshot: PreviousProfile,
    stage: UnlockStage,
    event: UnlockEvent,
    next: (UnlockStage, UnlockAction),
) -> bool {
    match stage {
        UnlockStage::ReadingCurrent => match event {
            UnlockEvent::Current(Some(current)) => match restore_to(
                snapshot.applied@,
                snapshot.previous@,
                current@,
            ) {
                Some(target) => {
                    &&& next.0 matches UnlockStage::Restoring(t) && t@ == target
                    &&& next.1 matches UnlockAction::RestoreTo(t) && t@ == target
                },
                None => next.0 is Done && next.1 is Skip,
            },
            _ => next.0 is Done && next.1 is Skip,
        },
        UnlockStage::Restoring(target) => match event {
            UnlockEvent::Restored(true) => {
                &&& next.0 is Done
                &&& next.1 matches UnlockAction::Render(t) && t@ == target@
            },
            _ => next.0 is Done && next.1 is Skip,
        },
        UnlockStage::Done => next.0 is Done && next.1 is Skip,
    }
}

/// One step of returning a device to the profile it had before the lock,
/// from its snapshot: from the stage the device was in and what the caller
/// saw, the next stage and what the caller does next.
pub fn unlock_step(snapshot: &PreviousProfile, stage: UnlockStage, event: UnlockEvent) -> (next: (UnlockStage, UnlockAction))
    ensures
        unlock_next(*snapshot, stage, event, next),
{
    match stage {
        UnlockStage::ReadingCurrent => match event {
            UnlockEvent::Current(Some(current)) => match restore_target(snapshot, &current) {
                Some(target) => (UnlockStage::Restoring(target.clone()), UnlockAction::RestoreTo(target)),
                None => (UnlockStage::Done, UnlockAction::Skip),
            },
            _ => (UnlockStage::Done, UnlockAction::Skip),
        },
        UnlockStage::Restoring(target) => match event {
            UnlockEvent::Restored(true) => (UnlockStage::Done, UnlockAction::Render(target)),
            _ => (UnlockStage::Done, UnlockAction::Skip),
        },
        UnlockStage::Done => (UnlockStage::Done, UnlockAction::Skip),
    }
}

/// The lock switched the device: it read the selected profile and was told
/// to switch.
pub open spec fn lock_switched(first: (LockStage, LockAction), second: (LockStage, LockAction)) -> bool {
    first.1 is ReadSelected && second.1 is SwitchTo
}

/// The device's selected profile after the lock's steps, every call
/// succeeding: the lock profile where it switched, else what it had.
pub open spec fn selected_after_lock(
    selected: Seq<char>,
    first: (LockStage, LockAction),
    second: (LockStage, LockAction),
) -> Seq<char> {
    if lock_switched(first, second) {
        match second.1 {
            LockAction::SwitchTo(target) => target@,
            _ => selected,
        }
    } else {
        selected
    }
}

/// The device's selected profile after the unlock's first step, the switch
/// succeeding: the restored profile where it switched back, else `current`.
pub open spec fn selected_after_unlock(current: Seq<char>, step: (UnlockStage, UnlockAction)) -> Seq<char> {
    match step.1 {
        UnlockAction::RestoreTo(target) => target@,
        _ => current,
    }
}

/// A lock followed by an unlock, run through [`lock_step`], the snapshots
/// that [`take_snapshots`](LockProfileState::take_snapshots) hands over and
/// [`unlock_step`], with every call succeeding and nothing else changing
/// the device's selection in between, leaves `device` with the profile it
/// had selected before the lock.
///
/// `lock1`..`lock3` are the lock's steps for the device, from its installed
/// profiles, its selected profile and a successful switch; `taken` are the
/// snapshots the unlock takes, holding the device exactly where the lock
/// switched it, as `lock_step` records; `current` is the device's selection
/// that the unlock reads, and `unlock1`, `unlock2` the unlock's steps for
/// the device's snapshot.
pub proof fn lemma_lock_steps_then_unlock_steps_restore(
    profile: String,
    installed: Vec<String>,
    selected: String,
    lock1: (LockStage, LockAction),
    lock2: (LockStage, LockAction),
    lock3: (LockStage, LockAction),
    device: String,
    taken: Seq<(String, PreviousProfile)>,
    current: String,
    unlock1: (UnlockStage, UnlockAction),
    unlock2: (UnlockStage, UnlockAction),
)
    requires
        lock_next(LockStage::ListingProfiles, LockEvent::Profiles(Some(installed)), profile@, lock1),
        lock1.1 is ReadSelected ==> lock_next(lock1.0, LockEvent::Selected(Some(selected)), profile@, lock2),
        lock_switched(lock1, lock2) ==> lock_next(lock2.0, LockEvent::Switched(true), profile@, lock3),
        devices_unique(taken),
        lock_switched(lock1, lock2) ==> has_device(taken, device@) && snapshot_of(taken, device@) == (
            profile@,
            lock2.0->Switching_0@,
        ),
        !lock_switched(lock1, lock2) ==> !has_device(taken, device@),
        current@ == selected_after_lock(selected@, lock1, lock2),
        forall|j: int|
            0 <= j < taken.len() && #[trigger] taken[j].0@ == device@ ==> {
                &&& unlock_next(taken[j].1, UnlockStage::ReadingCurrent, UnlockEvent::Current(Some(current)), unlock1)
                &&& unlock1.1 is RestoreTo ==> unlock_next(taken[j].1, unlock1.0, UnlockEvent::Restored(true), unlock2)
            },
    ensures
        lock_switched(lock1, lock2) == lock_applies(profile@, installed@.map_values(|p: String| p@), selected@),
        selected_after_lock(selected@, lock1, lock2) == lock_device(
            profile@,
            installed@.map_values(|p: String| p@),
            selected@,
        ).0,
        (if has_device(taken, device@) {
            selected_after_unlock(current@, unlock1)
        } else {
            current@
        }) == selected@,
{
    if has_device(taken, device@) {
        let j = choose|j: int| 0 <= j < taken.len() && #[trigger] taken[j].0@ == device@;
        lemma_snapshot_at(taken, j);
        assert(taken[j].1.applied@ == profile@ && taken[j].1.previous@ == selected@);
    }
}

/// One state of an action instance, as far as drawing it goes.
#[derive(Debug)]
pub struct InstanceState {
    pub image: String,
    pub background_colour: String,
    pub image_scale: u8,
}

/// An action instance of a profile: its action's identifier, its states
/// and which of them is current.
#[derive(Debug)]
pub struct ProfileInstance {
    pub action_uuid: String,
    pub states: Vec<InstanceState>,
    pub current_state: u16,
}

/// A request to draw one instance's image on its device.
#[derive(Debug)]
pub struct RenderRequest {
    /// Position of the instance in the list it was planned from.
    pub instance: usize,
    /// The state's image; `None` when the state has none.
    pub image: Option<String>,
    pub background_colour: Option<String>,
    pub image_scale: Option<u8>,
}

/// Multi-actions and toggle actions draw nothing of their own.
pub open spec fn draws_nothing(uuid: Seq<char>) -> bool {
    uuid == "opendeck.multiaction"@ || uuid == "opendeck.toggleaction"@
}

/// The state drawn for an instance: its current state, or its first state
/// where the current index is out of range; `None` for actions that draw
/// nothing and for instances without states.
pub open spec fn drawn_state(instance: ProfileInstance) -> Option<InstanceState> {
    if draws_nothing(instance.action_uuid@) {
        None
    } else if (instance.current_state as int) < instance.states@.len() {
        Some(instance.states@[instance.current_state as int])
    } else if instance.states@.len() > 0 {
        Some(instance.states@[0])
    } else {
        None
    }
}

/// The request draws `state`: its image (none when empty), its background
/// colour and its image scale.
pub open spec fn draws(request: RenderRequest, state: InstanceState) -> bool {
    &&& match request.image {
        Some(image) => state.image@.len() > 0 && image@ == state.image@,
        None => state.image@.len() == 0,
    }
    &&& request.background_colour matches Some(colour) && colour@ == state.background_colour@
    &&& request.image_scale == Some(state.image_scale)
}

/// Plans the server-side drawing of a profile's stored state images, since
/// the webview renderer adds nothing while the screen is locked: one request
/// per instance that draws a state, in instance order.
pub fn render_plan(instances: &Vec<ProfileInstance>) -> (plan: Vec<RenderRequest>)
    ensures
        forall|j: int|
            0 <= j < plan@.len() ==> {
                &&& #[trigger] plan@[j].instance < instances@.len()
                &&& drawn_state(instances@[plan@[j].instance as int]) matches Some(state) && draws(plan@[j], state)
            },
        forall|j: int, k: int| 0 <= j < k < plan@.len() ==> #[trigger] plan@[j].instance < #[trigger] plan@[k].instance,
        forall|i: int|
            0 <= i < instances@.len() && #[trigger] drawn_state(instances@[i]) is Some ==> exists|j: int|
                0 <= j < plan@.len() && #[trigger] plan@[j].instance == i,
{
    let multiaction = String::from_str("opendeck.multiaction");
    let toggleaction = String::from_str("opendeck.toggleaction");
    let mut plan: Vec<RenderRequest> = Vec::new();
    let mut i: usize = 0;
    while i < instances.len()
        invariant
            i <= instances@.len(),
            multiaction@ == "opendeck.multiaction"@,
            toggleaction@ == "opendeck.toggleaction"@,
            forall|j: int|
                0 <= j < plan@.len() ==> {
                    &&& #[trigger] plan@[j].instance < i
                    &&& drawn_state(instances@[plan@[j].instance as int]) matches Some(state) && draws(plan@[j], state)
                },
            forall|j: int, k: int| 0 <= j < k < plan@.len() ==> #[trigger] plan@[j].instance < #[trigger] plan@[k].instance,
            forall|m: int|
                0 <= m < i && #[trigger] drawn_state(instances@[m]) is Some ==> exists|j: int|
                    0 <= j < plan@.len() && #[trigger] plan@[j].instance == m,
        decreases instances.len() - i,
    {
        let instance = &instances[i];
        if instance.action_uuid == multiaction || instance.action_uuid == toggleaction {
            i = i + 1;
            continue;
        }
        let current: usize = instance.current_state as usize;
        let state = if current < instance.states.len() {
            &instance.states[current]
        } else if instance.states.len() > 0 {
            &instance.states[0]
        } else {
            i = i + 1;
            continue;
        };
        let image = if state.image.as_str().is_empty() {
            None
        } else {
            Some(state.image.clone())
        };
        let request = RenderRequest {
            instance: i,
            image,
            background_colour: Some(state.background_colour.clone()),
            image_scale: Some(state.image_scale),
        };
        let ghost before = plan@;
        plan.push(request);
        proof {
            assert(drawn_state(instances@[i as int]) == Some(*state));
            assert(plan@[before.len() as int].instance == i);
            assert forall|m: int|
                0 <= m < i + 1 && #[trigger] drawn_state(instances@[m]) is Some implies exists|j: int|
                    0 <= j < plan@.len() && #[trigger] plan@[j].instance == m by {
                if m < i {
                    let j = choose|j: int| 0 <= j < before.len() && #[trigger] before[j].instance == m;
                    assert(plan@[j] == before[j]);
                } else {
                    assert(plan@[before.len() as int].instance == m);
                }
            }
        }
        i = i + 1;
    }
    plan
}

} // verus!
