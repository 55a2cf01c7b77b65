use opendeck::application_watcher::{
    profile_for_device, profile_switch, record_application, start_monitoring, stop_monitoring, ApplicationMonitor, empty_application_profiles, empty_device_profiles, set_application_profiles, set_device_profile, FocusWatcher,
    SwitchProfileEvent,
};

fn s(text: &str) -> String {
    text.to_string()
}

fn pairs(events: &[(String, String)]) -> Vec<(&str, &str)> {
    events.iter().map(|(a, b)| (a.as_str(), b.as_str())).collect()
}

#[test]
fn new_applications_are_listed_once() {
    let mut applications = vec![s("Firefox")];
    assert!(record_application(&mut applications, &s("Terminal"), "OpenDeck"));
    assert!(!record_application(&mut applications, &s("Terminal"), "OpenDeck"));
    assert!(!record_application(&mut applications, &s("opendeck-helper"), "OpenDeck"));
    assert!(!record_application(&mut applications, &s("  \t"), "OpenDeck"));
    assert_eq!(applications, vec![s("Firefox"), s("Terminal")]);
    assert!(!record_application(&mut applications, &s("ÖPENDECK"), "öpendeck"));
}

#[test]
fn profiles_are_checked_only_on_focus_changes_while_unlocked() {
    let mut watcher = FocusWatcher::new();
    assert!(watcher.focus_changed(&s("Firefox"), false));
    assert!(!watcher.focus_changed(&s("Firefox"), false));
    assert!(!watcher.focus_changed(&s("Terminal"), true));
    assert!(watcher.focus_changed(&s("Terminal"), false));
    assert!(!watcher.focus_changed(&s(""), true));
}

#[test]
fn application_profiles_fall_back_to_the_default_entry() {
    let mut firefox = empty_device_profiles();
    set_device_profile(&mut firefox, s("sd-1"), s("Browsing"));
    let mut default = empty_device_profiles();
    set_device_profile(&mut default, s("sd-1"), s("Default"));
    set_device_profile(&mut default, s("sd-2"), s("Default 2"));
    let mut profiles = empty_application_profiles();
    set_application_profiles(&mut profiles, s("Firefox"), firefox);
    set_application_profiles(&mut profiles, s("opendeck_default"), default);

    assert_eq!(profile_for_device(&profiles, "Firefox", "sd-1"), Some(s("Browsing")));
    assert_eq!(profile_for_device(&profiles, "Firefox", "sd-2"), Some(s("Default 2")));
    assert_eq!(profile_for_device(&profiles, "Terminal", "sd-1"), Some(s("Default")));
    assert_eq!(profile_for_device(&profiles, "Terminal", "sd-3"), None);
}

#[test]
fn switches_are_sent_only_for_other_profiles() {
    let device = s("sd-1");
    let event: Option<SwitchProfileEvent> = profile_switch(&device, Some(s("Browsing")), Some(s("Default")));
    let event = event.unwrap();
    assert_eq!((event.device.as_str(), event.profile.as_str()), ("sd-1", "Browsing"));
    assert!(profile_switch(&device, Some(s("Browsing")), None).is_some());
    assert!(profile_switch(&device, Some(s("Default")), Some(s("Default"))).is_none());
    assert!(profile_switch(&device, None, Some(s("Default"))).is_none());
}

#[test]
fn monitoring_starts_notifies_and_stops() {
    let mut monitor = ApplicationMonitor::new();
    assert!(monitor.is_idle());
    assert!(start_monitoring(&mut monitor, &s("plugin.a"), &vec![s("Spotify"), s("Discord")]).is_empty());
    assert!(!monitor.is_idle());

    // Nothing was seen running yet; now Spotify (two processes) and Steam run.
    let running = vec![(s("Spotify"), 10), (s("Steam"), 11), (s("Spotify"), 12), (s("Spotify"), 10)];
    let launched = monitor.record_launches(&running);
    assert_eq!(pairs(&launched), vec![("plugin.a", "Spotify"), ("plugin.a", "Spotify")]);
    assert!(monitor.record_launches(&running).is_empty());

    // A second plugin learns of the processes already running.
    let launched = start_monitoring(&mut monitor, &s("plugin.b"), &vec![s("Spotify")]);
    assert_eq!(pairs(&launched), vec![("plugin.b", "Spotify"), ("plugin.b", "Spotify")]);

    // Process 12 exits: both plugins are told.
    let terminated = monitor.retire_dead_processes(&vec![10, 11]);
    assert_eq!(pairs(&terminated), vec![("plugin.a", "Spotify"), ("plugin.b", "Spotify")]);
    assert!(monitor.retire_dead_processes(&vec![10, 11]).is_empty());

    stop_monitoring(&mut monitor, &s("plugin.a"));
    let terminated = monitor.retire_dead_processes(&vec![]);
    assert_eq!(pairs(&terminated), vec![("plugin.b", "Spotify")]);
    stop_monitoring(&mut monitor, &s("plugin.b"));
    assert!(monitor.is_idle());
    // With nobody monitoring, nothing is pruned or announced.
    assert!(monitor.retire_dead_processes(&vec![]).is_empty());
}

#[test]
fn starting_then_stopping_a_plugin_changes_nothing() {
    let mut monitor = ApplicationMonitor::new();
    start_monitoring(&mut monitor, &s("plugin.a"), &vec![s("Spotify")]);
    start_monitoring(&mut monitor, &s("plugin.b"), &vec![s("Spotify"), s("Steam"), s("Steam")]);
    stop_monitoring(&mut monitor, &s("plugin.b"));
    let running = vec![(s("Spotify"), 1), (s("Steam"), 2)];
    assert_eq!(pairs(&monitor.record_launches(&running)), vec![("plugin.a", "Spotify")]);
}

#[test]
fn every_plugin_hears_of_every_process_once() {
    let mut monitor = ApplicationMonitor::new();
    start_monitoring(&mut monitor, &s("plugin.a"), &vec![s("Spotify")]);
    start_monitoring(&mut monitor, &s("plugin.b"), &vec![s("Spotify")]);
    let running = vec![(s("Spotify"), 1), (s("Spotify"), 2), (s("Spotify"), 3)];
    let launched = monitor.record_launches(&running);
    assert_eq!(launched.len(), 6);
    assert_eq!(pairs(&launched[..2]), vec![("plugin.a", "Spotify"), ("plugin.b", "Spotify")]);
    // Processes 1 and 3 exit; 2 keeps running and triggers nothing.
    let terminated = monitor.retire_dead_processes(&vec![2]);
    assert_eq!(
        pairs(&terminated),
        vec![("plugin.a", "Spotify"), ("plugin.b", "Spotify"), ("plugin.a", "Spotify"), ("plugin.b", "Spotify")]
    );
    assert!(monitor.record_launches(&vec![(s("Spotify"), 2)]).is_empty());
}
