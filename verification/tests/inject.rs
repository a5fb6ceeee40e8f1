use cooee::hotkey::vk;
use cooee::inject::{
    after_paste, check_sent, inject, paste, type_text, Insertion, KeyPress, KeyStroke, Strategy, VK_V,
};
use cooee::tray::{click_action, menu_action, tooltip, TrayAction, TRAY_ID};

#[test]
fn short_text_is_typed_and_long_text_pasted() {
    let at = "a".repeat(120);
    let over = "a".repeat(121);
    assert_eq!(Strategy::default(), Strategy::Auto);
    assert_eq!(inject("", Strategy::Paste), Insertion::Nothing);
    assert_eq!(inject(&at, Strategy::Auto), Insertion::Keystrokes(type_text(&at)));
    assert_eq!(inject(&over, Strategy::Auto), Insertion::Paste(paste()));
    assert_eq!(inject(&over, Strategy::Type), Insertion::Keystrokes(type_text(&over)));
    assert_eq!(inject("a", Strategy::Paste), Insertion::Paste(paste()));
    // Characters count, not bytes.
    let accents = "\u{E9}".repeat(120);
    assert!(matches!(inject(&accents, Strategy::Auto), Insertion::Keystrokes(_)));
}

#[test]
fn characters_are_typed_as_utf16() {
    let text = "a\u{E9}\u{1F389}";
    let strokes = type_text(text);
    let units: Vec<u16> = text.encode_utf16().collect();
    assert_eq!(units, vec![0x61, 0xE9, 0xD83C, 0xDF89]);
    assert_eq!(strokes.len(), 8);
    for (i, unit) in units.iter().enumerate() {
        assert_eq!(strokes[2 * i], KeyStroke { unit: *unit, up: false });
        assert_eq!(strokes[2 * i + 1], KeyStroke { unit: *unit, up: true });
    }
}

#[test]
fn a_paste_is_control_and_v() {
    let k = |vk, up| KeyPress { vk, up };
    assert_eq!(
        paste(),
        [k(vk::CONTROL, false), k(VK_V, false), k(VK_V, true), k(vk::CONTROL, true)]
    );
}

#[test]
fn events_that_were_not_sent_are_reported() {
    assert_eq!(check_sent(4, 4, true), Ok(()));
    assert_eq!(check_sent(3, 8, false).unwrap_err(), "SendInput sent 3 of 8 events");
    assert_eq!(check_sent(0, 4, true).unwrap_err(), "SendInput sent 0 of 4 events for Ctrl+V");
}

#[test]
fn the_tray_says_how_to_dictate() {
    assert_eq!(tooltip("Ctrl+Win"), "Cooee — hold Ctrl+Win to dictate");
    assert_eq!(TRAY_ID, "cooee");
    assert_eq!(menu_action("settings"), TrayAction::ShowSettings);
    assert_eq!(menu_action("quit"), TrayAction::Quit);
    assert_eq!(menu_action("other"), TrayAction::Nothing);
    assert_eq!(click_action(true, true), TrayAction::ShowSettings);
    assert_eq!(click_action(true, false), TrayAction::Nothing);
    assert_eq!(click_action(false, true), TrayAction::Nothing);
}

#[test]
fn the_clipboard_is_put_back_whatever_was_sent() {
    let saved = || Some("before".to_string());
    assert_eq!(after_paste(4, saved()), (Ok(()), saved()));
    assert_eq!(
        after_paste(2, saved()),
        (Err("SendInput sent 2 of 4 events for Ctrl+V".to_string()), saved())
    );
    assert_eq!(after_paste(4, None), (Ok(()), None));
}
