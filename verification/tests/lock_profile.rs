use opendeck::lock_profile::{
    has_profile_installed, init_lock_profile, lock_step, render_plan, restore_target, should_apply_on_lock,
    unlock_step, update_profile_when_locked, InstanceState, LockAction, LockEvent, LockProfileState, LockStage,
    PreviousProfile, ProfileInstance, UnlockAction, UnlockEvent, UnlockStage,
};

fn s(text: &str) -> String {
    text.to_string()
}

#[test]
fn lock_profile_is_set_and_updated() {
    let mut state = LockProfileState::new();
    assert_eq!(state.lock_target(), None);
    init_lock_profile(&mut state, s("Locked"));
    assert_eq!(state.lock_target(), Some(s("Locked")));
    update_profile_when_locked(&mut state, s("Screen off"));
    assert_eq!(state.profile_when_locked(), "Screen off");
    update_profile_when_locked(&mut state, String::new());
    assert_eq!(state.lock_target(), None);
}

#[test]
fn lock_skips_devices_without_the_profile_or_already_on_it() {
    let installed = vec![s("Default"), s("Locked")];
    assert!(has_profile_installed(&s("Locked"), &installed));
    assert!(!has_profile_installed(&s("Other"), &installed));
    assert!(should_apply_on_lock(&s("Locked"), &installed, &s("Default")));
    assert!(!should_apply_on_lock(&s("Locked"), &installed, &s("Locked")));
    assert!(!should_apply_on_lock(&s("Missing"), &installed, &s("Default")));
}

#[test]
fn unlock_restores_only_untouched_devices() {
    let snapshot = PreviousProfile { applied: s("Locked"), previous: s("Default") };
    assert_eq!(restore_target(&snapshot, &s("Locked")), Some(s("Default")));
    assert_eq!(restore_target(&snapshot, &s("Gaming")), None);
}

#[test]
fn lock_then_unlock_round_trip() {
    let mut state = LockProfileState::new();
    init_lock_profile(&mut state, s("Locked"));
    let profile = state.lock_target().unwrap();
    let installed = vec![s("Default"), s("Locked")];
    let selected = s("Default");
    assert!(should_apply_on_lock(&profile, &installed, &selected));
    state.record_applied(s("sd-1"), profile.clone(), selected.clone());
    state.record_applied(s("sd-2"), profile.clone(), s("Work"));
    state.record_applied(s("sd-1"), profile.clone(), s("Default"));
    let snapshots = state.take_snapshots();
    assert_eq!(snapshots.len(), 2);
    assert!(state.take_snapshots().is_empty());
    let (device, entry) = &snapshots[0];
    assert_eq!(device, "sd-1");
    assert_eq!(restore_target(entry, &profile), Some(selected));
    assert_eq!(restore_target(&snapshots[1].1, &profile), Some(s("Work")));
}

fn instance(uuid: &str, current: u16, images: &[&str]) -> ProfileInstance {
    ProfileInstance {
        action_uuid: s(uuid),
        current_state: current,
        states: images
            .iter()
            .map(|image| InstanceState { image: s(image), background_colour: s("#000000"), image_scale: 80 })
            .collect(),
    }
}

#[test]
fn render_plan_draws_current_states() {
    let instances = vec![
        instance("com.example.a", 1, &["a0", "a1"]),
        instance("opendeck.multiaction", 0, &["m0"]),
        instance("com.example.b", 5, &["b0", "b1"]),
        instance("opendeck.toggleaction", 0, &["t0"]),
        instance("com.example.c", 0, &[]),
        instance("com.example.d", 0, &[""]),
    ];
    let plan = render_plan(&instances);
    assert_eq!(plan.len(), 3);
    assert_eq!(plan[0].instance, 0);
    assert_eq!(plan[0].image.as_deref(), Some("a1"));
    assert_eq!(plan[1].instance, 2);
    assert_eq!(plan[1].image.as_deref(), Some("b0"));
    assert_eq!(plan[2].instance, 5);
    assert_eq!(plan[2].image, None);
    assert_eq!(plan[2].background_colour.as_deref(), Some("#000000"));
    assert_eq!(plan[2].image_scale, Some(80));
}

#[test]
fn the_lock_steps_through_a_device_and_records_a_successful_switch() {
    let mut state = LockProfileState::new();
    let device = "sd-1".to_owned();
    let profile = "Locked".to_owned();
    let installed = vec!["Default".to_owned(), "Locked".to_owned()];
    let (stage, action) =
        lock_step(&mut state, &device, &profile, LockStage::ListingProfiles, LockEvent::Profiles(Some(installed)));
    assert!(matches!(stage, LockStage::ReadingSelected));
    assert!(matches!(action, LockAction::ReadSelected));
    let (stage, action) = lock_step(&mut state, &device, &profile, stage, LockEvent::Selected(Some("Default".to_owned())));
    assert!(matches!(&action, LockAction::SwitchTo(target) if target == "Locked"));
    // Nothing is recorded before the switch succeeds.
    assert!(state.take_snapshots().is_empty());
    let (stage, action) = lock_step(&mut state, &device, &profile, stage, LockEvent::Switched(true));
    assert!(matches!(stage, LockStage::Done));
    assert!(matches!(&action, LockAction::Render(target) if target == "Locked"));
    let snapshots = state.take_snapshots();
    assert_eq!(snapshots.len(), 1);
    assert_eq!(snapshots[0].0, "sd-1");
    assert_eq!(snapshots[0].1.applied, "Locked");
    assert_eq!(snapshots[0].1.previous, "Default");
}

#[test]
fn the_lock_skips_devices_on_failures_and_without_the_profile() {
    let mut state = LockProfileState::new();
    let device = "sd-1".to_owned();
    let profile = "Locked".to_owned();
    let skip = |next: (LockStage, LockAction)| matches!(next, (LockStage::Done, LockAction::Skip));
    assert!(skip(lock_step(&mut state, &device, &profile, LockStage::ListingProfiles, LockEvent::Profiles(None))));
    assert!(skip(lock_step(
        &mut state,
        &device,
        &profile,
        LockStage::ListingProfiles,
        LockEvent::Profiles(Some(vec!["Default".to_owned()]))
    )));
    assert!(skip(lock_step(&mut state, &device, &profile, LockStage::ReadingSelected, LockEvent::Selected(None))));
    assert!(skip(lock_step(
        &mut state,
        &device,
        &profile,
        LockStage::ReadingSelected,
        LockEvent::Selected(Some("Locked".to_owned()))
    )));
    assert!(skip(lock_step(
        &mut state,
        &device,
        &profile,
        LockStage::Switching("Default".to_owned()),
        LockEvent::Switched(false)
    )));
    assert!(state.take_snapshots().is_empty());
}

#[test]
fn the_unlock_restores_only_what_the_lock_left() {
    let snapshot = PreviousProfile { applied: "Locked".to_owned(), previous: "Default".to_owned() };
    let (stage, action) =
        unlock_step(&snapshot, UnlockStage::ReadingCurrent, UnlockEvent::Current(Some("Locked".to_owned())));
    assert!(matches!(&action, UnlockAction::RestoreTo(target) if target == "Default"));
    let (stage, action) = unlock_step(&snapshot, stage, UnlockEvent::Restored(true));
    assert!(matches!(stage, UnlockStage::Done));
    assert!(matches!(&action, UnlockAction::Render(target) if target == "Default"));
    // A profile chosen after the lock is kept; failures skip the device.
    let skip = |next: (UnlockStage, UnlockAction)| matches!(next, (UnlockStage::Done, UnlockAction::Skip));
    assert!(skip(unlock_step(&snapshot, UnlockStage::ReadingCurrent, UnlockEvent::Current(Some("Games".to_owned())))));
    assert!(skip(unlock_step(&snapshot, UnlockStage::ReadingCurrent, UnlockEvent::Current(None))));
    assert!(skip(unlock_step(&snapshot, UnlockStage::Restoring("Default".to_owned()), UnlockEvent::Restored(false))));
}

#[test]
fn a_lock_then_an_unlock_through_the_steps_gives_the_device_its_profile_back() {
    let mut state = LockProfileState::new();
    let device = "sd-1".to_owned();
    let profile = "Locked".to_owned();
    let mut selected = "Default".to_owned();
    let installed = vec!["Default".to_owned(), "Locked".to_owned()];
    let (stage, _) =
        lock_step(&mut state, &device, &profile, LockStage::ListingProfiles, LockEvent::Profiles(Some(installed)));
    let (stage, action) = lock_step(&mut state, &device, &profile, stage, LockEvent::Selected(Some(selected.clone())));
    if let LockAction::SwitchTo(target) = action {
        selected = target;
    }
    lock_step(&mut state, &device, &profile, stage, LockEvent::Switched(true));
    assert_eq!(selected, "Locked");
    let snapshots = state.take_snapshots();
    assert!(state.take_snapshots().is_empty());
    let (stage, action) = unlock_step(&snapshots[0].1, UnlockStage::ReadingCurrent, UnlockEvent::Current(Some(selected.clone())));
    if let UnlockAction::RestoreTo(target) = action {
        selected = target;
    }
    assert!(matches!(unlock_step(&snapshots[0].1, stage, UnlockEvent::Restored(true)).1, UnlockAction::Render(_)));
    assert_eq!(selected, "Default");
}
