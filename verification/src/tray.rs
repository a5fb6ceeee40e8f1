//! System tray icon.
//!
//! There is no primary window: the overlay is transient and the settings window
//! starts hidden. Without a tray icon the app is completely invisible once
//! installed.

use crate::text::{append_str, chars_of, same, string_of};
use vstd::prelude::*;

verus! {

/// The id of the tray icon.
pub const TRAY_ID: &'static str = "cooee";

/// What the icon says of itself.
pub fn tooltip(hotkey_label: &str) -> (r: String)
    ensures
        r@ == "Cooee \u{2014} hold "@ + hotkey_label@ + " to dictate"@,
{
    let mut s: Vec<char> = chars_of("Cooee \u{2014} hold ");
    append_str(&mut s, hotkey_label);
    append_str(&mut s, " to dictate");
    string_of(s.as_slice())
}

/// What the icon is asked to do.
#[derive(Debug, Clone, Copy, PartialEq, Eq, Structural)]
pub enum TrayAction {
    /// Bring the settings window to the foreground.
    ShowSettings,
    Quit,
    Nothing,
}

/// What an entry of the icon's menu does.
pub fn menu_action(id: &str) -> (r: TrayAction)
    ensures
        r == (if id@ == "settings"@ {
            TrayAction::ShowSettings
        } else if id@ == "quit"@ {
            TrayAction::Quit
        } else {
            TrayAction::Nothing
        }),
{
    let chars: Vec<char> = chars_of(id);
    if same(chars.as_slice(), chars_of("settings").as_slice()) {
        TrayAction::ShowSettings
    } else if same(chars.as_slice(), chars_of("quit").as_slice()) {
        TrayAction::Quit
    } else {
        TrayAction::Nothing
    }
}

/// What a click on the icon does: the left button opens settings as it comes up;
/// the menu is on the right one.
pub fn click_action(left: bool, up: bool) -> (r: TrayAction)
    ensures
        r == (if left && up {
            TrayAction::ShowSettings
        } else {
            TrayAction::Nothing
        }),
{
    if left && up {
        TrayAction::ShowSettings
    } else {
        TrayAction::Nothing
    }
}

} // verus!
