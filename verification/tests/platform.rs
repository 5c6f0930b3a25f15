use localasr::config::InjectionConfig;
use localasr::platform::{plan_apply, Call, ClipboardSnapshot, InjectAction, LinuxPlatform, MockPlatform};
use localasr::state::Diff;

fn cfg() -> InjectionConfig {
    InjectionConfig { mode: "clipboard_paste".into(), paste_shortcut: "Ctrl+V".into(), restore_delay_ms: 1 }
}

/// Carries out an injection plan on the recording platform.
fn apply(p: &mut MockPlatform, diff: &Diff, saved: &ClipboardSnapshot) {
    for action in plan_apply(&cfg(), diff, saved) {
        match action {
            InjectAction::Backspace(n) => p.backspace(n),
            InjectAction::WriteClipboard(s) => p.write_clipboard(&s),
            InjectAction::Paste(s) => p.paste(&s),
            InjectAction::Sleep(_) => {}
        }
    }
}

#[test]
fn mock_records_calls_in_order() {
    let mut p = MockPlatform::new();
    p.write_clipboard(&ClipboardSnapshot(Some("hi".into())));
    p.paste("Ctrl+V");
    p.backspace(3);
    assert_eq!(
        p.calls(),
        vec![Call::WriteClipboard(ClipboardSnapshot(Some("hi".into()))), Call::Paste("Ctrl+V".into()), Call::Backspace(3)]
    );
}

#[test]
fn append_only_pastes_and_restores() {
    let mut p = MockPlatform::new();
    let saved = ClipboardSnapshot(Some("original".into()));
    apply(&mut p, &Diff { backspace_count: 0, append: "hello".into() }, &saved);
    let calls = p.calls();
    assert_eq!(calls[0], Call::WriteClipboard(ClipboardSnapshot(Some("hello".into()))));
    assert_eq!(calls[1], Call::Paste("Ctrl+V".into()));
    assert_eq!(calls[2], Call::WriteClipboard(saved));
}

#[test]
fn backspace_only_does_not_touch_clipboard() {
    let mut p = MockPlatform::new();
    let saved = ClipboardSnapshot(Some("x".into()));
    apply(&mut p, &Diff { backspace_count: 3, append: "".into() }, &saved);
    let calls = p.calls();
    assert_eq!(calls.len(), 1);
    assert_eq!(calls[0], Call::Backspace(3));
}

#[test]
fn backspace_then_paste() {
    let mut p = MockPlatform::new();
    let saved = ClipboardSnapshot(None);
    apply(&mut p, &Diff { backspace_count: 5, append: "world".into() }, &saved);
    let calls = p.calls();
    assert_eq!(calls[0], Call::Backspace(5));
    assert_eq!(calls[1], Call::WriteClipboard(ClipboardSnapshot(Some("world".into()))));
    assert_eq!(calls[2], Call::Paste("Ctrl+V".into()));
    assert_eq!(calls[3], Call::WriteClipboard(saved));
}

#[test]
fn empty_diff_is_noop() {
    let mut p = MockPlatform::new();
    apply(&mut p, &Diff { backspace_count: 0, append: "".into() }, &ClipboardSnapshot(None));
    assert!(p.calls().is_empty());
}

#[test]
fn plan_waits_restore_delay_before_restoring() {
    let plan = plan_apply(&cfg(), &Diff { backspace_count: 2, append: "x".into() }, &ClipboardSnapshot(None));
    assert_eq!(
        plan,
        vec![
            InjectAction::Backspace(2),
            InjectAction::WriteClipboard(ClipboardSnapshot(Some("x".into()))),
            InjectAction::Paste("Ctrl+V".into()),
            InjectAction::Sleep(1),
            InjectAction::WriteClipboard(ClipboardSnapshot(None)),
        ]
    );
}

#[test]
fn mock_read_returns_last_write() {
    let mut p = MockPlatform::new();
    assert_eq!(p.read_clipboard(), ClipboardSnapshot(None));
    p.write_clipboard(&ClipboardSnapshot(Some("a".into())));
    assert_eq!(p.read_clipboard(), ClipboardSnapshot(Some("a".into())));
    assert_eq!(p.calls()[0], Call::ReadClipboard);
    let _ = LinuxPlatform::new();
}
