use localasr::extract::{chunk, DEFAULT_CHUNK_BYTES};

#[test]
fn empty_input_returns_empty() {
    assert!(chunk("", 8 * 1024).is_empty());
}

#[test]
fn small_input_is_one_chunk() {
    let out = chunk("hello\nworld\n", 8 * 1024);
    assert_eq!(out, vec!["hello\nworld\n"]);
}

#[test]
fn splits_on_line_boundary() {
    let text: String = (0..6).map(|i| format!("line-{i:03}\n")).collect();
    let out = chunk(&text, 22);
    assert!(out.iter().all(|c| c.len() <= 22), "all chunks within cap");
    assert_eq!(out.concat(), text);
}

#[test]
fn never_splits_mid_line() {
    let big_line = "a".repeat(20_000) + "\n";
    let text = format!("short\n{big_line}also-short\n");
    let out = chunk(&text, 8 * 1024);
    assert!(out.iter().any(|c| c.len() > 8 * 1024));
    assert!(out.iter().all(|c| c == &big_line || !c.contains(&big_line[..])));
    assert_eq!(out.concat(), text);
}

#[test]
fn trailing_text_without_newline_is_emitted() {
    let out = chunk("no-newline-at-end", 8 * 1024);
    assert_eq!(out, vec!["no-newline-at-end"]);
}

#[test]
fn chunks_pair_lines_greedily() {
    let text: String = (0..6).map(|i| format!("line-{i:03}\n")).collect();
    let out = chunk(&text, 22);
    assert_eq!(out.len(), 3);
    assert_eq!(out[0], "line-000\nline-001\n");
}

#[test]
fn oversized_line_flushes_pending_chunk_first() {
    let out = chunk("ab\ncdefgh\nij\n", 5);
    assert_eq!(out, vec!["ab\n", "cdefgh\n", "ij\n"]);
}

#[test]
fn cap_counts_bytes_not_characters() {
    // "é" is two bytes: "éé\n" is 5 bytes.
    let out = chunk("éé\néé\n", 9);
    assert_eq!(out, vec!["éé\n", "éé\n"]);
    let out = chunk("éé\néé\n", 10);
    assert_eq!(out, vec!["éé\néé\n"]);
}

#[test]
fn default_chunk_size_is_8k() {
    assert_eq!(DEFAULT_CHUNK_BYTES, 8 * 1024);
}

#[test]
fn chunks_are_packed_greedily() {
    let out = chunk("aaa\nbb\ncccc\nd\n", 7);
    assert_eq!(out, vec!["aaa\nbb\n", "cccc\nd\n"]);
    for pair in out.windows(2) {
        let first_line = pair[1].split_inclusive('\n').next().unwrap();
        assert!(pair[0].len() + first_line.len() > 7);
    }
}
