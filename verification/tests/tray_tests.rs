use caldav_tasks::tray::TrayState;

#[test]
fn initialize_enabled_builds_the_menu() {
    let mut tray = TrayState::new();
    assert!(tray.is_tray_enabled());
    assert!(tray.menu.is_none());
    tray.initialize_tray(true);
    assert!(tray.is_tray_enabled());
    assert!(tray.get_tray_enabled());
    assert!(tray.visible);
    let menu = tray.menu.as_ref().unwrap();
    assert_eq!(menu.last_sync_text, "Last sync: Never");
    assert!(menu.sync_enabled);
}

#[test]
fn initialize_disabled_builds_nothing() {
    let mut tray = TrayState::new();
    tray.initialize_tray(false);
    assert!(!tray.is_tray_enabled());
    assert!(!tray.visible);
    assert!(tray.menu.is_none());
}

#[test]
fn sync_time_label_updates_only_with_a_menu() {
    let mut tray = TrayState::new();
    tray.update_tray_sync_time("Last sync: 12:00".to_string());
    assert!(tray.menu.is_none());
    tray.initialize_tray(true);
    tray.update_tray_sync_time("Last sync: 12:00".to_string());
    assert_eq!(tray.menu.as_ref().unwrap().last_sync_text, "Last sync: 12:00");
}

#[test]
fn sync_entry_can_be_disabled_and_reenabled() {
    let mut tray = TrayState::new();
    tray.initialize_tray(true);
    tray.update_tray_sync_enabled(false);
    assert!(!tray.menu.as_ref().unwrap().sync_enabled);
    tray.update_tray_sync_enabled(true);
    assert!(tray.menu.as_ref().unwrap().sync_enabled);
}

#[test]
fn visibility_changes_only_an_existing_tray() {
    let mut tray = TrayState::new();
    // no tray was built: nothing to hide
    tray.set_tray_visible(false);
    assert!(tray.visible);
    assert!(tray.is_tray_enabled());

    tray.initialize_tray(true);
    tray.set_tray_visible(false);
    assert!(!tray.visible);
    assert!(!tray.is_tray_enabled());
    tray.set_tray_visible(true);
    assert!(tray.visible);
    assert!(tray.is_tray_enabled());
}
