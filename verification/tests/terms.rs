use localasr::terms::{render_prompt_block, Term, TermDb};

#[test]
fn prompt_block_includes_alias_and_hint() {
    let db = TermDb {
        entries: vec![Term {
            name: "kubectl".into(),
            aliases: vec!["cube control".into()],
            hint: "Kubernetes CLI tool".into(),
        }],
    };
    let s = render_prompt_block(&db);
    assert!(s.contains("kubectl"));
    assert!(s.contains("Kubernetes CLI tool"));
    assert!(s.contains("cube control"));
}

#[test]
fn prompt_block_handles_empty_hint_and_aliases() {
    let db = TermDb { entries: vec![Term { name: "bare".into(), aliases: vec![], hint: "".into() }] };
    let s = render_prompt_block(&db);
    assert_eq!(s.trim(), "bare");
}

#[test]
fn prompt_block_exact_format() {
    let db = TermDb {
        entries: vec![
            Term { name: "kubectl".into(), aliases: vec!["cube control".into(), "cube cuddle".into()], hint: "k8s".into() },
            Term { name: "tokio".into(), aliases: vec![], hint: "".into() },
            Term { name: "serde".into(), aliases: vec!["sir day".into()], hint: "".into() },
        ],
    };
    assert_eq!(
        render_prompt_block(&db),
        "kubectl \u{2014} k8s (sounds-like: \"cube control\", \"cube cuddle\")\ntokio\nserde (sounds-like: \"sir day\")\n"
    );
    assert_eq!(render_prompt_block(&TermDb { entries: vec![] }), "");
}
