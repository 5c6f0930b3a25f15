use localasr::hotkey::{build_chord, parse_binding, parse_chord, ChordModifiers, HotkeyEvent, HotkeyTracker, Key, UnsupportedKey};

#[test]
fn hotkey_parses_single_key() {
    let k = parse_binding("RightCtrl").unwrap();
    assert!(k.contains(&Key::RightCtrl));
    assert_eq!(k.len(), 1);
}

#[test]
fn hotkey_parses_chord() {
    let k = parse_binding("Ctrl+Alt+Space").unwrap();
    assert_eq!(k.len(), 3);
    assert!(k.contains(&Key::LeftCtrl));
    assert!(k.contains(&Key::LeftAlt));
    assert!(k.contains(&Key::Space));
}

#[test]
fn parses_function_key() {
    let k = parse_binding("F8").unwrap();
    assert!(k.contains(&Key::F8));
}

#[test]
fn rejects_unknown() {
    assert!(parse_binding("FlibberHotkey").is_err());
}

#[test]
fn input_parses_single_key() {
    let k = parse_chord("V").unwrap();
    assert_eq!(k, vec![Key::V]);
}

#[test]
fn input_parses_chord() {
    let k = parse_chord("Ctrl+V").unwrap();
    assert_eq!(k, vec![Key::LeftCtrl, Key::V]);
}

#[test]
fn rejects_unknown_key() {
    assert!(parse_chord("XYZ").is_err());
}

#[test]
fn binding_parts_are_trimmed_case_insensitive_and_deduplicated() {
    let k = parse_binding(" ctrl + LEFTCTRL+ f12 ").unwrap();
    assert_eq!(k, vec![Key::LeftCtrl, Key::F12]);
}

#[test]
fn binding_error_names_first_unsupported_part() {
    assert_eq!(parse_binding("Ctrl+ Foo +Bar"), Err(UnsupportedKey { key: "foo".into() }));
    assert_eq!(parse_binding(""), Err(UnsupportedKey { key: "".into() }));
    assert_eq!(parse_binding("Ctrl+"), Err(UnsupportedKey { key: "".into() }));
    // The paste-shortcut names are not binding names.
    assert!(parse_binding("Control").is_err());
    assert!(parse_binding("V").is_err());
}

#[test]
fn chord_keeps_order_and_repeats() {
    assert_eq!(
        parse_chord("Shift+control+Back+shift").unwrap(),
        vec![Key::LeftShift, Key::LeftCtrl, Key::Backspace, Key::LeftShift]
    );
    assert_eq!(parse_chord("Ctrl+Space"), Err(UnsupportedKey { key: "space".into() }));
}

#[test]
fn modifier_only() {
    let mods = ChordModifiers { ctrl: true, ..Default::default() };
    assert_eq!(build_chord(mods, None), "Ctrl");
}

#[test]
fn chord_with_key() {
    let mods = ChordModifiers { ctrl: true, alt: true, ..Default::default() };
    assert_eq!(build_chord(mods, Some("Space")), "Ctrl+Alt+Space");
}

#[test]
fn key_only() {
    assert_eq!(build_chord(ChordModifiers::default(), Some("F8")), "F8");
}

#[test]
fn chord_orders_modifiers_and_merges_command_keys() {
    let mods = ChordModifiers { ctrl: true, shift: true, alt: true, mac_cmd: true, command: true };
    assert_eq!(build_chord(mods, Some("F1")), "Ctrl+Shift+Alt+Meta+F1");
    assert_eq!(build_chord(ChordModifiers::default(), None), "");
}

#[test]
fn tracker_presses_when_all_held_and_releases_on_first_up() {
    // Ctrl (29) + Alt (56)
    let mut t = HotkeyTracker::new(vec![29, 56]);
    assert_eq!(t.on_key(29, 1), None);
    assert_eq!(t.on_key(30, 1), None); // not part of the binding
    assert_eq!(t.on_key(56, 1), Some(HotkeyEvent::Press));
    assert!(t.is_open());
    assert_eq!(t.on_key(56, 2), None); // auto-repeat
    assert_eq!(t.on_key(29, 0), Some(HotkeyEvent::Release));
    assert_eq!(t.on_key(56, 0), None);
    assert!(!t.is_open());
}

#[test]
fn tracker_single_key_alternates() {
    let mut t = HotkeyTracker::new(vec![97]);
    assert_eq!(t.on_key(97, 1), Some(HotkeyEvent::Press));
    assert_eq!(t.on_key(97, 1), None);
    assert_eq!(t.on_key(97, 0), Some(HotkeyEvent::Release));
    assert_eq!(t.on_key(97, 0), None);
    assert_eq!(t.on_key(97, 1), Some(HotkeyEvent::Press));
}

#[test]
fn tracker_events_alternate_from_press() {
    let mut t = HotkeyTracker::new(vec![29, 56]);
    let keys: [(u16, i32); 12] = [(29, 1), (56, 1), (56, 2), (30, 1), (56, 0), (29, 0), (29, 1), (56, 1), (29, 0), (56, 0), (56, 1), (29, 1)];
    let evs: Vec<HotkeyEvent> = keys.iter().filter_map(|&(c, v)| t.on_key(c, v)).collect();
    assert_eq!(
        evs,
        vec![HotkeyEvent::Press, HotkeyEvent::Release, HotkeyEvent::Press, HotkeyEvent::Release, HotkeyEvent::Press]
    );
    assert!(t.is_open());
}
