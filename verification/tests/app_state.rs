use nimble::launcher::{capture_previous_app, tray_label, FocusTracker, LauncherAction};
use nimble::settings::AppSettings;
use nimble::watcher::{
    is_yaml_event, is_yaml_file_name, watch_step, FsEventKind, WatchAction, WatchEvent, WatchState,
};

// ── Settings ──────────────────────────────────────────────────────────────

#[test]
fn default_settings_enable_everything() {
    let s = AppSettings::default();
    assert_eq!(s.hotkey, None);
    assert!(s.show_context_chip);
    assert!(s.allow_duplicates);
    assert!(s.allow_external_paths);
}

#[test]
fn set_hotkey_keeps_other_settings() {
    let mut s = AppSettings::default();
    s.allow_duplicates = false;
    s.set_hotkey("Super+Space".to_string());
    assert_eq!(s.hotkey.as_deref(), Some("Super+Space"));
    assert!(!s.allow_duplicates);
    assert!(s.show_context_chip);
}

// ── File names and events ─────────────────────────────────────────────────

#[test]
fn yaml_extensions() {
    assert!(is_yaml_file_name("a.yaml"));
    assert!(is_yaml_file_name("a.b.yml"));
    assert!(is_yaml_file_name(".x.yaml"));
    assert!(!is_yaml_file_name(".yaml"));
    assert!(!is_yaml_file_name("yaml"));
    assert!(!is_yaml_file_name("a.yaml.bak"));
    assert!(!is_yaml_file_name("a.YAML"));
    assert!(!is_yaml_file_name("a."));
}

fn names(v: &[Option<&str>]) -> Vec<Option<String>> {
    v.iter().map(|o| o.map(|s| s.to_string())).collect()
}

#[test]
fn create_or_modify_needs_a_yaml_file() {
    assert!(is_yaml_event(FsEventKind::Create, &names(&[Some("notes.txt"), Some("cmd.yml")])));
    assert!(is_yaml_event(FsEventKind::Modify, &names(&[Some("cmd.yaml")])));
    assert!(!is_yaml_event(FsEventKind::Modify, &names(&[Some("hello.sh"), None])));
    assert!(!is_yaml_event(FsEventKind::Create, &names(&[])));
}

#[test]
fn any_removal_with_a_path_is_relevant() {
    assert!(is_yaml_event(FsEventKind::Remove, &names(&[Some("commands")])));
    assert!(!is_yaml_event(FsEventKind::Remove, &names(&[])));
    assert!(!is_yaml_event(FsEventKind::Other, &names(&[Some("a.yaml")])));
}

#[test]
fn debounce_reloads_once_after_quiet() {
    let mut state = WatchState::Waiting;
    let mut reloads = 0;
    for event in [
        WatchEvent::Changed(false),
        WatchEvent::Changed(true),
        WatchEvent::Changed(false),
        WatchEvent::Changed(true),
        WatchEvent::Quiet,
        WatchEvent::Quiet,
    ] {
        let (next, action) = watch_step(state, event);
        if action == WatchAction::Reload {
            reloads += 1;
        }
        state = next;
    }
    assert_eq!(reloads, 1);
    assert_eq!(state, WatchState::Waiting);
}

#[test]
fn closed_channel_stops_without_reload() {
    assert_eq!(watch_step(WatchState::Settling, WatchEvent::Closed), (WatchState::Stopped, WatchAction::Stop));
    assert_eq!(watch_step(WatchState::Waiting, WatchEvent::Closed), (WatchState::Stopped, WatchAction::Stop));
}

// ── Launcher ──────────────────────────────────────────────────────────────

#[test]
fn tray_label_names_the_next_action() {
    assert_eq!(tray_label(true), "Hide");
    assert_eq!(tray_label(false), "Show");
}

#[test]
fn focus_returns_to_previous_app() {
    let mut t = FocusTracker::new();
    assert_eq!(t.toggle(false), LauncherAction::Show);
    capture_previous_app(&mut t, Some(42), 7);
    assert_eq!(t.toggle(true), LauncherAction::Hide { restore: Some(42) });
    assert_eq!(t.previous, None);
}

#[test]
fn launcher_never_records_itself() {
    let mut t = FocusTracker::new();
    capture_previous_app(&mut t, Some(42), 7);
    capture_previous_app(&mut t, Some(7), 7);
    capture_previous_app(&mut t, None, 7);
    assert_eq!(t.take(), Some(42));
    assert_eq!(t.take(), None);
}
