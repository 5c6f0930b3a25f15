use localasr::config::InjectionConfig;
use localasr::hotkey::HotkeyEvent;
use localasr::pipeline::{Session, SessionStep, SessionSupervisor, SupervisorAction};
use localasr::platform::{plan_apply, Call, ClipboardSnapshot, InjectAction, MockPlatform};
use localasr::state::{Diff, TypedState};
use localasr::vad::{ChunkEvent, EndReason};

fn injection() -> InjectionConfig {
    InjectionConfig { mode: "clipboard_paste".into(), paste_shortcut: "Ctrl+V".into(), restore_delay_ms: 1 }
}

fn inject(p: &mut MockPlatform, diff: &Diff, saved: &ClipboardSnapshot) {
    for action in plan_apply(&injection(), diff, saved) {
        match action {
            InjectAction::Backspace(n) => p.backspace(n),
            InjectAction::WriteClipboard(s) => p.write_clipboard(&s),
            InjectAction::Paste(s) => p.paste(&s),
            InjectAction::Sleep(_) => {}
        }
    }
}

/// Drives one session the way the daemon does, with a scripted recogniser,
/// an editor whose light pass echoes the last chunk and whose heavy pass
/// appends a period, and the recording platform.
fn run_session(p: &mut MockPlatform, transcripts: Vec<&str>, events: Vec<ChunkEvent>) -> Session {
    let mut transcripts = transcripts.into_iter();
    let mut session = Session::new();
    let saved = p.read_clipboard();
    for ev in events {
        match ev {
            ChunkEvent::Start => {}
            ChunkEvent::Samples(_) => {
                session.push_transcript(transcripts.next().unwrap_or_default().to_string());
                let window = session.light_window(3);
                let polished = window.last().cloned().unwrap_or_default();
                let diff = session.apply_light_result(Some(polished));
                inject(p, &diff, &saved);
            }
            ChunkEvent::End { reason } => {
                if reason == EndReason::SessionClosed {
                    if let Some(u) = session.heavy_utterance(true) {
                        let heavy = u.trim().to_string() + ".";
                        let diff = session.apply_heavy_result(&heavy);
                        inject(p, &diff, &saved);
                    }
                    break;
                }
            }
        }
    }
    session
}

fn two_chunks() -> Vec<ChunkEvent> {
    vec![
        ChunkEvent::Start,
        ChunkEvent::Samples(vec![0; 1600]),
        ChunkEvent::End { reason: EndReason::SilenceTimeout },
        ChunkEvent::Start,
        ChunkEvent::Samples(vec![0; 1600]),
        ChunkEvent::End { reason: EndReason::SessionClosed },
    ]
}

#[test]
fn full_session_runs_light_then_heavy() {
    let mut platform = MockPlatform::new();
    run_session(&mut platform, vec!["hello", "world"], two_chunks());
    let calls = platform.calls();
    let writes: Vec<_> = calls
        .iter()
        .filter_map(|c| match c {
            Call::WriteClipboard(s) => Some(s.clone()),
            _ => None,
        })
        .collect();
    assert!(writes.first().unwrap().0.as_deref().unwrap_or("").contains("hello"));
    assert_eq!(writes.last().unwrap(), &ClipboardSnapshot(None));
}

#[test]
fn two_chunks_then_heavy_pass_produces_correct_call_sequence() {
    let mut platform = MockPlatform::new();
    run_session(&mut platform, vec!["hello", "world"], two_chunks());
    let calls = platform.calls();
    assert_eq!(calls[0], Call::ReadClipboard);
    let last_write = calls
        .iter()
        .rev()
        .find_map(|c| match c {
            Call::WriteClipboard(s) => Some(s.clone()),
            _ => None,
        })
        .unwrap();
    assert_eq!(last_write, ClipboardSnapshot(None));
    let heavy_paste = calls.iter().rev().find_map(|c| match c {
        Call::WriteClipboard(ClipboardSnapshot(Some(t))) if t.ends_with('.') => Some(t.clone()),
        _ => None,
    });
    assert!(heavy_paste.is_some(), "heavy editor's pasted text should end with a period");
}

#[test]
fn session_types_joined_chunks_then_heavy_text() {
    let mut s = Session::new();
    s.push_transcript("hello".into());
    let d = s.apply_light_result(None);
    assert_eq!(d, Diff { backspace_count: 0, append: "hello".into() });
    s.push_transcript("wrld".into());
    let d = s.apply_light_result(Some("world".into()));
    assert_eq!(d, Diff { backspace_count: 0, append: " world".into() });
    assert_eq!(s.heavy_utterance(true), Some("hello world".to_string()));
    assert_eq!(s.heavy_utterance(false), None);
    let d = s.apply_heavy_result("Hello world.");
    assert_eq!(d, Diff { backspace_count: 11, append: "Hello world.".into() });
}

#[test]
fn light_window_takes_last_chunks() {
    let mut s = Session::new();
    for t in ["a", "b", "c", "d"] {
        s.push_transcript(t.into());
    }
    assert_eq!(s.light_window(3), vec!["b", "c", "d"]);
    assert_eq!(s.light_window(10), vec!["a", "b", "c", "d"]);
    assert!(s.light_window(0).is_empty());
}

#[test]
fn empty_session_has_no_heavy_pass() {
    let s = Session::new();
    assert_eq!(s.heavy_utterance(true), None);
}

#[test]
fn supervisor_aborts_on_repress_and_stops_on_release() {
    let mut sup = SessionSupervisor::new();
    assert_eq!(sup.on_hotkey(HotkeyEvent::Release), vec![]);
    assert_eq!(sup.on_hotkey(HotkeyEvent::Press), vec![SupervisorAction::StartSession]);
    assert_eq!(
        sup.on_hotkey(HotkeyEvent::Press),
        vec![SupervisorAction::AbortSession, SupervisorAction::StartSession]
    );
    assert_eq!(sup.on_hotkey(HotkeyEvent::Release), vec![SupervisorAction::StopSession]);
    assert_eq!(sup.on_hotkey(HotkeyEvent::Release), vec![]);
}

#[test]
fn session_steps_for_each_event() {
    assert_eq!(Session::on_event(&ChunkEvent::Start), SessionStep::Continue);
    assert_eq!(Session::on_event(&ChunkEvent::Samples(vec![1])), SessionStep::Transcribe);
    assert_eq!(Session::on_event(&ChunkEvent::End { reason: EndReason::SilenceTimeout }), SessionStep::Continue);
    assert_eq!(Session::on_event(&ChunkEvent::End { reason: EndReason::MaxLength }), SessionStep::Continue);
    assert_eq!(Session::on_event(&ChunkEvent::End { reason: EndReason::SessionClosed }), SessionStep::Finish);
}

#[test]
fn failed_transcription_is_skipped() {
    let mut s = Session::new();
    assert!(!s.accept_transcript(None));
    assert_eq!(s.heavy_utterance(true), None);
    assert!(s.accept_transcript(Some("hello".to_string())));
    assert!(!s.accept_transcript(None));
    assert!(s.accept_transcript(Some("world".to_string())));
    assert_eq!(s.heavy_utterance(true), Some("hello world".to_string()));
}

#[test]
fn replaying_session_plans_ends_on_target_with_clipboard_restored() {
    let cfg = InjectionConfig { mode: "clipboard_paste".into(), paste_shortcut: "Ctrl+V".into(), restore_delay_ms: 0 };
    let saved = ClipboardSnapshot(Some("orig".into()));
    let mut typed = TypedState::new();
    let mut screen: Vec<char> = Vec::new();
    let mut clip = saved.clone();
    for target in ["hello", "hello wrold", "hello world", "hi", "hi"] {
        let diff = typed.update(target);
        for action in plan_apply(&cfg, &diff, &saved) {
            match action {
                InjectAction::Backspace(n) => {
                    let keep = screen.len() - n;
                    screen.truncate(keep);
                }
                InjectAction::WriteClipboard(c) => clip = c,
                InjectAction::Paste(_) => screen.extend(clip.0.clone().unwrap_or_default().chars()),
                InjectAction::Sleep(_) => {}
            }
        }
        assert_eq!(screen.iter().collect::<String>(), target);
        assert_eq!(clip, saved);
    }
}
