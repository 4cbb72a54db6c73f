//! Presentation state of the system tray.
//!
//! The desktop shell owns the real tray icon and menu; this module owns the
//! decisions — which flags and labels the tray must show — as an explicit
//! state value handed to the shell, never a process-wide singleton. The
//! shell calls these transitions and then renders the returned state.

use vstd::prelude::*;
use vstd::string::StringExecFns;

verus! {

/// The tray menu's mutable content: the last-sync label and whether the
/// sync entry is clickable.
pub struct TrayMenu {
    pub last_sync_text: String,
    pub sync_enabled: bool,
}

#[verifier::ext_equal]
pub struct TrayMenuView {
    pub last_sync_text: Seq<char>,
    pub sync_enabled: bool,
}

impl View for TrayMenu {
    type V = TrayMenuView;

    open spec fn view(&self) -> TrayMenuView {
        TrayMenuView { last_sync_text: self.last_sync_text@, sync_enabled: self.sync_enabled }
    }
}

/// The whole tray state: the user-facing enabled flag, the icon's
/// visibility, and the menu content once the tray has been built.
pub struct TrayState {
    pub enabled: bool,
    pub visible: bool,
    /// `None` until the tray is initialized enabled; the shell builds the
    /// real menu exactly when this becomes `Some`.
    pub menu: Option<TrayMenu>,
}

#[verifier::ext_equal]
pub struct TrayStateView {
    pub enabled: bool,
    pub visible: bool,
    pub menu: Option<TrayMenuView>,
}

impl View for TrayState {
    type V = TrayStateView;

    open spec fn view(&self) -> TrayStateView {
        TrayStateView {
            enabled: self.enabled,
            visible: self.visible,
            menu: match &self.menu {
                Option::None => Option::None,
                Option::Some(m) => Option::Some(m@),
            },
        }
    }
}

/// The menu content a fresh tray starts with: never synced, sync allowed.
pub open spec fn initial_menu() -> TrayMenuView {
    TrayMenuView { last_sync_text: "Last sync: Never"@, sync_enabled: true }
}

impl TrayState {
    /// Before initialization: enabled and visible by default, no menu built.
    pub fn new() -> (s: TrayState)
        ensures
            s@.enabled,
            s@.visible,
            s@.menu is None,
    {
        TrayState { enabled: true, visible: true, menu: None }
    }

    /// Whether the tray is currently enabled.
    pub fn is_tray_enabled(&self) -> (r: bool)
        ensures
            r == self@.enabled,
    {
        self.enabled
    }

    /// The enabled flag as the shell's command layer reports it on startup.
    pub fn get_tray_enabled(&self) -> (r: bool)
        ensures
            r == self@.enabled,
    {
        self.is_tray_enabled()
    }

    /// Initialize the tray from persisted settings: record the flag, and
    /// build the menu — last sync "Never", sync clickable — exactly when
    /// enabled. Disabled, the tray is simply not created and any previously
    /// built menu is left as it was.
    pub fn initialize_tray(&mut self, enabled: bool)
        ensures
            final(self)@.enabled == enabled,
            final(self)@.visible == enabled,
            final(self)@.menu == if enabled {
                Option::Some(initial_menu())
            } else {
                old(self)@.menu
            },
    {
        self.visible = enabled;
        self.enabled = enabled;
        if !enabled {
            return;
        }
        let text = String::from_str("Last sync: Never");
        self.menu = Some(TrayMenu { last_sync_text: text, sync_enabled: true });
        proof {
            assert(self@.menu =~= Option::Some(initial_menu()));
        }
    }

    /// Show the new last-sync label, if a menu has been built; without one
    /// there is nothing to update.
    pub fn update_tray_sync_time(&mut self, time_str: String)
        ensures
            final(self)@.enabled == old(self)@.enabled,
            final(self)@.visible == old(self)@.visible,
            final(self)@.menu == match old(self)@.menu {
                Option::None => Option::None::<TrayMenuView>,
                Option::Some(m) => Option::Some(
                    TrayMenuView { last_sync_text: time_str@, ..m },
                ),
            },
    {
        match &mut self.menu {
            Option::None => {},
            Option::Some(m) => {
                m.last_sync_text = time_str;
            },
        }
    }

    /// Enable or disable the sync entry (no account configured means
    /// nothing to sync), if a menu has been built.
    pub fn update_tray_sync_enabled(&mut self, enabled: bool)
        ensures
            final(self)@.enabled == old(self)@.enabled,
            final(self)@.visible == old(self)@.visible,
            final(self)@.menu == match old(self)@.menu {
                Option::None => Option::None::<TrayMenuView>,
                Option::Some(m) => Option::Some(TrayMenuView { sync_enabled: enabled, ..m }),
            },
    {
        match &mut self.menu {
            Option::None => {},
            Option::Some(m) => {
                m.sync_enabled = enabled;
            },
        }
    }

    /// Show or hide the icon. Takes effect only when a tray was actually
    /// built; hiding also counts as disabling, as the shell reports it.
    pub fn set_tray_visible(&mut self, visible: bool)
        ensures
            final(self)@.menu == old(self)@.menu,
            final(self)@.enabled == if old(self)@.menu is Some {
                visible
            } else {
                old(self)@.enabled
            },
            final(self)@.visible == if old(self)@.menu is Some {
                visible
            } else {
                old(self)@.visible
            },
    {
        if self.menu.is_some() {
            self.visible = visible;
            self.enabled = visible;
        }
    }
}

} // verus!
