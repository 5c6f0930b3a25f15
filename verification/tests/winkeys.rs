use localasr::winkeys::{parse_binding, parse_key, paste_keys, VK_BACK, VK_CONTROL, VK_LMENU, VK_MENU, VK_SPACE};

#[test]
fn parses_ctrl_v() {
    let k = parse_key("Ctrl").unwrap();
    assert_eq!(k, VK_CONTROL);
    let k = parse_key("V").unwrap();
    assert_eq!(k, b'V' as u16);
}

#[test]
fn windows_hotkey_parses_chord() {
    let k = parse_binding("Ctrl+Alt+Space").unwrap();
    assert_eq!(k.len(), 3);
}

#[test]
fn windows_binding_codes_and_dedup() {
    assert_eq!(parse_binding("ctrl + Alt+Space+CONTROL").unwrap(), vec![VK_CONTROL, VK_MENU, VK_SPACE]);
    assert_eq!(parse_binding("LeftAlt").unwrap(), vec![VK_LMENU]);
    assert_eq!(parse_binding("F8").unwrap(), vec![0x77]);
}

#[test]
fn windows_binding_single_character_keys() {
    assert_eq!(parse_binding("Ctrl+k").unwrap(), vec![VK_CONTROL, b'K' as u16]);
    assert_eq!(parse_binding("1").unwrap(), vec![b'1' as u16]);
}

#[test]
fn windows_binding_rejects_backspace_and_unknown() {
    assert_eq!(parse_binding("Ctrl+Backspace").unwrap_err().key, "backspace");
    assert_eq!(parse_binding("Ctrl+Flibber").unwrap_err().key, "flibber");
    assert_eq!(parse_binding("").unwrap_err().key, "");
}

#[test]
fn windows_paste_keys_in_order() {
    assert_eq!(paste_keys("Ctrl+V").unwrap(), vec![VK_CONTROL, b'V' as u16]);
    assert_eq!(paste_keys("back+back").unwrap(), vec![VK_BACK, VK_BACK]);
    assert_eq!(paste_keys("Ctrl+XYZ").unwrap_err().key, "xyz");
}

#[test]
fn windows_parse_key_does_not_trim() {
    assert_eq!(parse_key(" v").unwrap_err().key, " v");
    assert_eq!(parse_key("é").unwrap_err().key, "é");
    assert_eq!(parse_key("F12").unwrap(), 0x7B);
}
