use localasr::state::{Diff, TypedState};

#[test]
fn empty_to_text() {
    let mut s = TypedState::new();
    let d = s.update("hello");
    assert_eq!(d, Diff { backspace_count: 0, append: "hello".into() });
    assert_eq!(s.current(), "hello");
}

#[test]
fn append_only() {
    let mut s = TypedState::new();
    s.update("hello");
    let d = s.update("hello world");
    assert_eq!(d, Diff { backspace_count: 0, append: " world".into() });
}

#[test]
fn replace_tail() {
    let mut s = TypedState::new();
    s.update("hello wrold");
    let d = s.update("hello world");
    // Common prefix is "hello w" (7 chars); the trailing "rold" becomes "orld".
    assert_eq!(d, Diff { backspace_count: 4, append: "orld".into() });
}

#[test]
fn full_replacement() {
    let mut s = TypedState::new();
    s.update("foo");
    let d = s.update("bar");
    assert_eq!(d, Diff { backspace_count: 3, append: "bar".into() });
}

#[test]
fn truncation_only() {
    let mut s = TypedState::new();
    s.update("hello world");
    let d = s.update("hello");
    assert_eq!(d, Diff { backspace_count: 6, append: "".into() });
}

#[test]
fn unchanged() {
    let mut s = TypedState::new();
    s.update("same");
    let d = s.update("same");
    assert_eq!(d, Diff { backspace_count: 0, append: "".into() });
}

#[test]
fn multibyte_chars_counted_correctly() {
    let mut s = TypedState::new();
    s.update("café");
    let d = s.update("cafés");
    assert_eq!(d, Diff { backspace_count: 0, append: "s".into() });

    let d2 = s.update("café");
    assert_eq!(d2, Diff { backspace_count: 1, append: "".into() });
}

#[test]
fn reset_clears_state() {
    let mut s = TypedState::new();
    s.update("hello");
    s.reset();
    let d = s.update("world");
    assert_eq!(d, Diff { backspace_count: 0, append: "world".into() });
}

/// Applying a diff to the text typed before gives the text typed after.
fn apply(before: &str, d: &Diff) -> String {
    let chars: Vec<char> = before.chars().collect();
    let keep = chars.len() - d.backspace_count;
    let mut out: String = chars[..keep].iter().collect();
    out.push_str(&d.append);
    out
}

#[test]
fn diff_applied_reaches_new_text() {
    let cases = [("", "abc"), ("hello wrold", "hello world"), ("日本語", "日本人"), ("abc", ""), ("x", "x")];
    for (before, after) in cases {
        let mut s = TypedState::new();
        s.update(before);
        let d = s.update(after);
        assert_eq!(apply(before, &d), after);
        assert_eq!(s.current(), after);
    }
}

#[test]
fn diff_backspaces_past_common_prefix_only() {
    let mut s = TypedState::new();
    s.update("abcdef");
    let d = s.update("abXdef");
    assert_eq!(d, Diff { backspace_count: 4, append: "Xdef".into() });
}

#[test]
fn default_is_empty() {
    let s = TypedState::default();
    assert_eq!(s.current(), "");
}
