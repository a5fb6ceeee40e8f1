use cooee::hotkey::{
    chord_completed_by, chord_contains, is_swallowed, key_name, set_swallowed, take_swallowed,
    unpack, vk, HookState, Hotkey, HotkeyEvent, KeyEvent, Swallowed, Transition, MAX_KEYS,
};

fn down(keys: &'static [u32]) -> impl Fn(u32) -> bool {
    move |k| keys.contains(&k)
}

#[test]
fn default_is_ctrl_win() {
    assert_eq!(Hotkey::default().label(), "Ctrl+Win");
}

#[test]
fn pack_round_trips_and_ignores_invalid_keys() {
    let h = Hotkey::new(&[vk::CONTROL, 0, vk::LWIN, vk::CONTROL, 0x1FF]);
    assert_eq!(h.keys(), &[vk::CONTROL, vk::LWIN]);
    assert_eq!(unpack(h.pack()), h.keys());
}

#[test]
fn ctrl_win_completes_in_either_order() {
    let chord = Hotkey::default();
    // Ctrl held (either side), Win arrives.
    assert!(chord_completed_by(chord.keys(), vk::LWIN, down(&[vk::CONTROL])));
    // Win held, Right Ctrl arrives.
    assert!(chord_completed_by(chord.keys(), vk::RCONTROL, down(&[vk::LWIN])));
    // Win alone does nothing.
    assert!(!chord_completed_by(chord.keys(), vk::LWIN, down(&[])));
    // An unrelated key never completes it, even with everything held.
    assert!(!chord_completed_by(chord.keys(), 0x41, down(&[vk::CONTROL, vk::LWIN])));
}

#[test]
fn side_specific_single_key_stays_side_specific() {
    let chord = Hotkey::new(&[vk::RCONTROL]);
    assert!(chord_completed_by(chord.keys(), vk::RCONTROL, down(&[])));
    assert!(!chord_completed_by(chord.keys(), vk::LCONTROL, down(&[])));
    assert!(chord_contains(chord.keys(), vk::RCONTROL));
    assert!(!chord_contains(chord.keys(), vk::LCONTROL));
}

#[test]
fn empty_chord_never_fires() {
    let chord = Hotkey::new(&[]);
    assert!(!chord_completed_by(chord.keys(), vk::LWIN, |_| true));
    assert_eq!(chord.label(), "nothing (disabled)");
}

#[test]
fn swallow_bitset_is_per_key() {
    let mut keys = Swallowed::none();
    set_swallowed(&mut keys, vk::LWIN);
    assert!(is_swallowed(&keys, vk::LWIN));
    assert!(!is_swallowed(&keys, vk::RWIN));
    assert!(take_swallowed(&mut keys, vk::LWIN));
    assert!(!take_swallowed(&mut keys, vk::LWIN));
}

#[test]
fn serialises_as_a_plain_array() {
    let json = serde_json::to_string(Hotkey::default().keys()).unwrap();
    assert_eq!(json, "[17,91]");
    let back = Hotkey::from_stored(serde_json::from_str("[163]").unwrap());
    assert_eq!(back.label(), "Right Ctrl");
}

#[test]
fn names_common_keys() {
    assert_eq!(key_name(0x14), "Caps Lock");
    assert_eq!(key_name(0x41), "A");
    assert_eq!(key_name(0x78), "F9");
    assert_eq!(key_name(0xE5), "0xE5");
}

#[test]
fn names_the_other_keys() {
    assert_eq!(key_name(0x30), "0");
    assert_eq!(key_name(0x5A), "Z");
    assert_eq!(key_name(0x87), "F24");
    assert_eq!(key_name(0), "0x00");
    assert_eq!(key_name(0x1AB), "0x1AB");
    assert_eq!(Hotkey::new(&[vk::LMENU, 0x20, 0x70]).label(), "Left Alt+Space+F1");
}

#[test]
fn a_long_chord_is_cut_to_what_can_be_packed() {
    let keys: Vec<u32> = (1..=12).collect();
    let h = Hotkey::new(&keys);
    assert_eq!(h.keys(), &keys[..MAX_KEYS]);
    assert_eq!(unpack(h.pack()), h.keys());
    assert_eq!(Hotkey::new(&[vk::CONTROL]).pack(), 0x11);
    assert_eq!(Hotkey::default().pack(), 0x5B11);
}

fn hook(hotkey: &Hotkey) -> HookState {
    HookState::new(hotkey.pack(), false, Swallowed::none())
}

fn key(vk: u32, transition: Transition) -> KeyEvent {
    KeyEvent { vk, transition, injected: false }
}

#[test]
fn ctrl_then_win_eats_the_win_key() {
    let mut h = hook(&Hotkey::default());
    let v = h.on_key(key(vk::LCONTROL, Transition::Down), down(&[]));
    assert_eq!((v.event, v.eaten), (None, false));
    let v = h.on_key(key(vk::LWIN, Transition::Down), down(&[vk::CONTROL]));
    assert_eq!((v.event, v.eaten), (Some(HotkeyEvent::Pressed), true));
    // Auto-repeat of the eaten key is eaten, and is no second press.
    let v = h.on_key(key(vk::LWIN, Transition::Down), down(&[vk::CONTROL]));
    assert_eq!((v.event, v.eaten), (None, true));
    // The first key to come up releases; the eaten one stays eaten.
    let v = h.on_key(key(vk::LCONTROL, Transition::Up), down(&[]));
    assert_eq!((v.event, v.eaten), (Some(HotkeyEvent::Released), false));
    let v = h.on_key(key(vk::LWIN, Transition::Up), down(&[]));
    assert_eq!((v.event, v.eaten), (None, true));
    let v = h.on_key(key(vk::LWIN, Transition::Up), down(&[]));
    assert_eq!((v.event, v.eaten), (None, false));
}

#[test]
fn win_then_ctrl_eats_nothing() {
    let mut h = hook(&Hotkey::default());
    h.on_key(key(vk::LWIN, Transition::Down), down(&[]));
    let v = h.on_key(key(vk::RCONTROL, Transition::Down), down(&[vk::LWIN]));
    assert_eq!((v.event, v.eaten), (Some(HotkeyEvent::Pressed), false));
    let v = h.on_key(key(0x41, Transition::Up), down(&[]));
    assert_eq!((v.event, v.eaten), (None, false));
    let v = h.on_key(key(vk::LWIN, Transition::Up), down(&[]));
    assert_eq!((v.event, v.eaten), (Some(HotkeyEvent::Released), false));
}

#[test]
fn what_a_program_sends_passes() {
    let mut h = hook(&Hotkey::new(&[vk::RCONTROL]));
    let ev = KeyEvent { vk: vk::RCONTROL, transition: Transition::Down, injected: true };
    let v = h.on_key(ev, down(&[]));
    assert_eq!((v.event, v.eaten), (None, false));
    assert!(!h.held());
    let v = h.on_key(key(vk::RCONTROL, Transition::Other), down(&[]));
    assert_eq!((v.event, v.eaten), (None, false));
}

#[test]
fn a_new_chord_releases_the_old_one() {
    let mut h = hook(&Hotkey::new(&[vk::RCONTROL]));
    assert_eq!(cooee::hotkey::set(&mut h, &Hotkey::default()), None);
    h.on_key(key(vk::LWIN, Transition::Down), down(&[vk::CONTROL]));
    assert!(h.held());
    assert_eq!(cooee::hotkey::set(&mut h, &Hotkey::new(&[vk::CAPITAL])), Some(HotkeyEvent::Released));
    assert!(!h.held());
    assert_eq!(unpack(h.chord()), vec![vk::CAPITAL]);
    assert_eq!(h.swallowed().words(), [0, 1 << (vk::LWIN - 64), 0, 0]);
    let again = Swallowed::from_words(h.swallowed().words());
    assert!(is_swallowed(&again, vk::LWIN));
}

#[test]
fn a_stored_chord_is_kept_and_packed_as_far_as_it_fits() {
    let nine: Vec<u32> = (0x41..0x4A).collect();
    let h = Hotkey::from_stored(nine.clone());
    assert_eq!(h.keys(), nine);
    assert_eq!(h.label(), "A+B+C+D+E+F+G+H+I");
    assert_eq!(unpack(h.pack()), &nine[..8]);
    let mut state = hook(&Hotkey::default());
    assert_eq!(cooee::hotkey::set(&mut state, &h), None);
    assert_eq!(unpack(state.chord()), &nine[..8]);
    assert_eq!(Hotkey::from_stored(vec![0x41, 0x41]).keys(), &[0x41, 0x41]);
    assert_eq!(h.clone(), h);
}

#[test]
fn only_the_other_keys_are_looked_up() {
    let ask = |k: u32| {
        assert_eq!(k, vk::CONTROL, "asked of {k}");
        true
    };
    assert!(chord_completed_by(Hotkey::default().keys(), vk::LWIN, ask));
    let mut state = hook(&Hotkey::default());
    assert_eq!(
        state.on_key(key(vk::LWIN, Transition::Down), ask).event,
        Some(HotkeyEvent::Pressed)
    );
    // Nothing is asked while the chord is engaged, or of a key that comes up.
    let never = |k: u32| -> bool { panic!("asked of {k}") };
    assert_eq!(state.on_key(key(vk::LWIN, Transition::Down), never).event, None);
    assert_eq!(
        state.on_key(key(vk::LWIN, Transition::Up), never).event,
        Some(HotkeyEvent::Released)
    );
}
