use localasr::config::EditorPassConfig;
use localasr::editor::{
    endpoint_url, extract_user_message, heavy_system_prompt, light_system_prompt, light_user_message, reply_text,
    DEFAULT_HEAVY_PROMPT, DEFAULT_LIGHT_PROMPT,
};
use localasr::terms::{Term, TermDb};
use localasr::wizard::{HotkeyStepState, SaveStepState, WizardState, WizardStep};

fn pass(prompt: &str) -> EditorPassConfig {
    EditorPassConfig { enabled: true, context_chunks: 3, system_prompt: prompt.into() }
}

#[test]
fn light_prompt_defaults_when_empty() {
    assert_eq!(light_system_prompt(&pass("")), DEFAULT_LIGHT_PROMPT);
    assert_eq!(light_system_prompt(&pass("custom")), "custom");
}

#[test]
fn light_user_message_lists_chunks() {
    let m = light_user_message(&vec!["one".to_string(), "two".to_string()]);
    assert_eq!(
        m,
        "Recent chunks (oldest first):\n---\none\ntwo\n---\nReturn only the corrected text for the LAST chunk."
    );
}

#[test]
fn heavy_prompt_appends_terms_only_when_present() {
    let db = TermDb {
        entries: vec![Term { name: "kubectl".into(), aliases: vec!["cube control".into()], hint: "k8s cli".into() }],
    };
    let p = heavy_system_prompt(&pass(""), Some(&db));
    assert!(p.starts_with(DEFAULT_HEAVY_PROMPT));
    assert!(p.contains("\n\nTerms to prefer:\nkubectl"));
    assert_eq!(heavy_system_prompt(&pass("x"), None), "x");
    assert_eq!(heavy_system_prompt(&pass("x"), Some(&TermDb { entries: vec![] })), "x");
}

#[test]
fn endpoint_url_strips_trailing_slashes() {
    assert_eq!(endpoint_url("http://h/v1//", "/chat/completions"), "http://h/v1/chat/completions");
    assert_eq!(endpoint_url("http://h/v1", "/audio/transcriptions"), "http://h/v1/audio/transcriptions");
}

#[test]
fn reply_text_takes_first_choice_trimmed() {
    assert_eq!(reply_text(&vec!["  hi back.\n".to_string(), "other".to_string()]), "hi back.");
    assert_eq!(reply_text(&vec![]), "");
}

#[test]
fn extract_message_has_source_and_text() {
    assert_eq!(
        extract_user_message("use reqwest;", "src/lib.rs:0"),
        "Source: src/lib.rs:0\n\nText:\n---\nuse reqwest;\n---"
    );
}

#[test]
fn wizard_starts_on_welcome() {
    let s = WizardState::new();
    assert_eq!(s.step, WizardStep::Welcome);
    assert_eq!(WizardStep::default(), WizardStep::Welcome);
    assert!(!HotkeyStepState::default().capturing);
    assert!(SaveStepState::default().last_save_result.is_none());
}
