use localasr::config::{interpolate_env, InterpolateError};

fn env(pairs: &[(&str, &str)]) -> Vec<(String, String)> {
    pairs.iter().map(|(k, v)| (k.to_string(), v.to_string())).collect()
}

#[test]
fn interpolates_single_var() {
    let e = env(&[("LOCALASR_TEST_KEY", "abc123")]);
    assert_eq!(interpolate_env("k=${LOCALASR_TEST_KEY}", &e).unwrap(), "k=abc123");
}

#[test]
fn interpolates_multiple_vars() {
    let e = env(&[("LOCALASR_TEST_A", "one"), ("LOCALASR_TEST_B", "two")]);
    assert_eq!(interpolate_env("${LOCALASR_TEST_A}-${LOCALASR_TEST_B}", &e).unwrap(), "one-two");
}

#[test]
fn escaped_dollar_passes_through() {
    assert_eq!(interpolate_env(r"price=\$5", &env(&[])).unwrap(), "price=$5");
}

#[test]
fn missing_var_errors() {
    let err = interpolate_env("${LOCALASR_DEFINITELY_NOT_SET_XYZ}", &env(&[])).unwrap_err();
    assert!(err.message().contains("not set"));
    assert_eq!(err, InterpolateError::NotSet { name: "LOCALASR_DEFINITELY_NOT_SET_XYZ".into() });
}

#[test]
fn literal_dollar_without_brace_passes() {
    assert_eq!(interpolate_env("$100", &env(&[])).unwrap(), "$100");
}

#[test]
fn non_ascii_passes_through_unchanged() {
    assert_eq!(interpolate_env("café", &env(&[])).unwrap(), "café");
    assert_eq!(interpolate_env("\u{1F600}", &env(&[])).unwrap(), "\u{1F600}");
}

#[test]
fn unclosed_brace_errors() {
    let err = interpolate_env("${UNCLOSED", &env(&[])).unwrap_err();
    assert!(err.message().to_lowercase().contains("unclosed"));
}

#[test]
fn unclosed_brace_reports_byte_offset() {
    let err = interpolate_env("é ${X", &env(&[])).unwrap_err();
    assert_eq!(err, InterpolateError::Unclosed { at_byte: 3 });
    assert_eq!(err.message(), "unclosed ${ at byte 3");
}

#[test]
fn not_set_message_names_variable() {
    let err = interpolate_env("a ${NOPE} b", &env(&[("OTHER", "1")])).unwrap_err();
    assert_eq!(err.message(), "env var ${NOPE} not set");
}

#[test]
fn first_binding_wins_and_values_are_not_reinterpolated() {
    let e = env(&[("A", "${B}"), ("A", "second"), ("B", "b")]);
    assert_eq!(interpolate_env("[${A}]", &e).unwrap(), "[${B}]");
}

#[test]
fn backslash_without_dollar_is_kept() {
    assert_eq!(interpolate_env(r"a\b\", &env(&[])).unwrap(), r"a\b\");
    assert_eq!(interpolate_env("${}", &env(&[("", "empty")])).unwrap(), "empty");
}
