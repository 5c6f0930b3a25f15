use localasr::extract::{finalize, keep_named_terms, merge_into, strip_code_fence};
use localasr::terms::{Term, TermDb};

fn t(name: &str, aliases: &[&str], hint: &str) -> Term {
    Term { name: name.into(), aliases: aliases.iter().map(|s| (*s).into()).collect(), hint: hint.into() }
}

#[test]
fn merge_into_empty_db_adds_all() {
    let mut db = TermDb { entries: vec![] };
    merge_into(&mut db, vec![t("a", &["x"], "h-a"), t("b", &[], "")]);
    assert_eq!(db.entries.len(), 2);
    assert_eq!(db.entries[0].name, "a");
    assert_eq!(db.entries[0].aliases, vec!["x"]);
}

#[test]
fn merge_into_dedups_by_name() {
    let mut db = TermDb { entries: vec![t("k", &["a"], "first")] };
    merge_into(&mut db, vec![t("k", &["b"], "second")]);
    assert_eq!(db.entries.len(), 1);
    assert_eq!(db.entries[0].aliases, vec!["a", "b"]);
    assert_eq!(db.entries[0].hint, "first");
}

#[test]
fn merge_into_fills_empty_hint() {
    let mut db = TermDb { entries: vec![t("k", &[], "")] };
    merge_into(&mut db, vec![t("k", &[], "now-i-know")]);
    assert_eq!(db.entries[0].hint, "now-i-know");
}

#[test]
fn merge_into_unions_aliases_no_dup() {
    let mut db = TermDb { entries: vec![t("k", &["a", "b"], "")] };
    merge_into(&mut db, vec![t("k", &["b", "c"], "")]);
    assert_eq!(db.entries[0].aliases, vec!["a", "b", "c"]);
}

#[test]
fn merge_into_skips_empty_name() {
    let mut db = TermDb { entries: vec![] };
    merge_into(&mut db, vec![t("", &["x"], "h")]);
    assert!(db.entries.is_empty());
}

#[test]
fn finalize_sorts_by_name() {
    let mut db = TermDb { entries: vec![t("kubectl", &[], ""), t("ansible", &[], ""), t("tokio", &[], "")] };
    finalize(&mut db);
    let names: Vec<&str> = db.entries.iter().map(|t| t.name.as_str()).collect();
    assert_eq!(names, vec!["ansible", "kubectl", "tokio"]);
}

#[test]
fn merge_is_case_sensitive_and_dedups_within_batch() {
    let mut db = TermDb { entries: vec![] };
    merge_into(&mut db, vec![t("kubectl", &["a"], ""), t("Kubectl", &[], "x"), t("kubectl", &["a", "a2"], "h")]);
    assert_eq!(db.entries.len(), 2);
    assert_eq!(db.entries[0].aliases, vec!["a", "a2"]);
    assert_eq!(db.entries[0].hint, "h");
    assert_eq!(db.entries[1].name, "Kubectl");
}

#[test]
fn finalize_is_stable_and_orders_by_code_point() {
    let mut db = TermDb {
        entries: vec![t("b", &[], "1"), t("B", &[], ""), t("a", &[], ""), t("b", &[], "2"), t("ab", &[], "")],
    };
    finalize(&mut db);
    let got: Vec<(&str, &str)> = db.entries.iter().map(|t| (t.name.as_str(), t.hint.as_str())).collect();
    assert_eq!(got, vec![("B", ""), ("a", ""), ("ab", ""), ("b", "1"), ("b", "2")]);
}

#[test]
fn keep_named_terms_drops_empty_names() {
    let kept = keep_named_terms(vec![t("", &[], ""), t("keep", &[], "")]);
    assert_eq!(kept.len(), 1);
    assert_eq!(kept[0].name, "keep");
}

#[test]
fn strip_code_fence_no_fence_passes_through() {
    assert_eq!(strip_code_fence(r#"{"terms":[]}"#), r#"{"terms":[]}"#);
}

#[test]
fn strip_code_fence_removes_tagged_fence() {
    let raw = "```json\n{\"terms\":[{\"name\":\"tokio\",\"aliases\":[],\"hint\":\"\"}]}\n```";
    assert_eq!(strip_code_fence(raw), "{\"terms\":[{\"name\":\"tokio\",\"aliases\":[],\"hint\":\"\"}]}");
    assert_eq!(strip_code_fence("  ```\n[1]\n```  \n"), "[1]");
    assert_eq!(strip_code_fence("```[1]"), "[1]");
    assert_eq!(strip_code_fence("```json\n{}"), "{}");
}

#[test]
fn strip_code_fence_is_idempotent() {
    for raw in ["```json\n{}\n```", "  {} ", "```\nx\n```", "```\n```x```", "```\n```\n```", "```"] {
        let once = strip_code_fence(raw);
        assert_eq!(strip_code_fence(&once), once);
    }
    // Nested fences come off pass after pass.
    assert_eq!(strip_code_fence("```\n```x```"), "x");
    assert_eq!(strip_code_fence("```\n```\n```"), "");
}

#[test]
fn merge_leaves_other_entries_and_appends_in_first_seen_order() {
    let mut db = TermDb { entries: vec![t("a", &["x"], "h"), t("b", &[], "")] };
    merge_into(
        &mut db,
        vec![t("d", &[], ""), t("b", &["y"], "hb"), t("", &[], ""), t("c", &[], ""), t("d", &["z"], "hd"), t("a", &["x"], "")],
    );
    let names: Vec<&str> = db.entries.iter().map(|e| e.name.as_str()).collect();
    assert_eq!(names, vec!["a", "b", "d", "c"]);
    assert_eq!(db.entries[0], t("a", &["x"], "h"));
    assert_eq!(db.entries[1], t("b", &["y"], "hb"));
    assert_eq!(db.entries[2], t("d", &["z"], "hd"));
}
