use tesseras_repl::tokens::{
    load_tokens, position_of_alias, position_of_token, resolve_token, truncate_token, TokenEntry,
};

fn sample_entries() -> Vec<TokenEntry> {
    vec![
        TokenEntry {
            token: "aaa".into(),
            alias: Some("photo".into()),
            created_at: "2026-01-01 00:00:00".into(),
        },
        TokenEntry {
            token: "bbb".into(),
            alias: None,
            created_at: "2026-01-02 00:00:00".into(),
        },
        TokenEntry {
            token: "ccc".into(),
            alias: Some("diary".into()),
            created_at: "2026-01-03 00:00:00".into(),
        },
    ]
}

#[test]
fn tokens_deduplicates() {
    let tokens = load_tokens(b"abc\nabc\ndef\nabc\ndef\nghi\n");
    assert_eq!(tokens, vec!["abc", "def", "ghi"]);
}

#[test]
fn tokens_skips_blank_lines() {
    let tokens = load_tokens(b"abc\n\n  \ndef\n");
    assert_eq!(tokens, vec!["abc", "def"]);
}

#[test]
fn tokens_missing_file() {
    // A file that is not there has no bytes.
    let tokens = load_tokens(&[]);
    assert!(tokens.is_empty());
}

#[test]
fn token_files_with_other_line_ends() {
    assert!(load_tokens(b"").is_empty());
    assert_eq!(load_tokens(b"abc\r\ndef"), vec!["abc", "def"]);
    assert_eq!(load_tokens(b"abc\r\r\nabc"), vec!["abc\r", "abc"]);
    assert_eq!(load_tokens(b"abc\nd\r"), vec!["abc", "d\r"]);
    assert_eq!(load_tokens(b" abc\nabc \nabc"), vec![" abc", "abc ", "abc"]);
}

#[test]
fn token_files_are_read_up_to_a_bad_line() {
    assert_eq!(load_tokens(b"abc\nd\xff\ndef\n"), vec!["abc"]);
    assert!(load_tokens(b"\xff\nabc\n").is_empty());
}

#[test]
fn resolve_by_index() {
    let entries = sample_entries();
    let (idx, e) = resolve_token(&entries, "2").unwrap();
    assert_eq!(idx, 1);
    assert_eq!(e.token, "bbb");
}

#[test]
fn resolve_by_alias() {
    let entries = sample_entries();
    let (idx, e) = resolve_token(&entries, "diary").unwrap();
    assert_eq!(idx, 2);
    assert_eq!(e.token, "ccc");
}

#[test]
fn resolve_by_token() {
    let entries = sample_entries();
    let (idx, e) = resolve_token(&entries, "aaa").unwrap();
    assert_eq!(idx, 0);
    assert_eq!(e.token, "aaa");
}

#[test]
fn resolve_not_found() {
    let entries = sample_entries();
    assert!(resolve_token(&entries, "999").is_none());
    assert!(resolve_token(&entries, "nope").is_none());
}

#[test]
fn resolve_index_zero_is_invalid() {
    let entries = sample_entries();
    assert!(resolve_token(&entries, "0").is_none());
}

#[test]
fn resolve_takes_numbers_before_names_before_tokens() {
    let mut entries = sample_entries();
    entries[0].alias = Some("3".into());
    entries[1].alias = Some("aaa".into());
    assert_eq!(resolve_token(&entries, "3").unwrap().0, 2);
    assert_eq!(resolve_token(&entries, "+3").unwrap().0, 2);
    assert_eq!(resolve_token(&entries, "aaa").unwrap().0, 1);
    entries.pop();
    assert_eq!(resolve_token(&entries, "3").unwrap().0, 0);
    assert_eq!(position_of_alias(&entries, "aaa"), 1);
    assert_eq!(position_of_alias(&entries, "none"), 2);
    assert_eq!(position_of_token(&entries, "aaa"), 0);
    assert_eq!(position_of_token(&entries, "none"), 2);
}

#[test]
fn truncate_multibyte() {
    // Emoji: each is 4 bytes, should not panic
    let s = "abcde";
    assert_eq!(truncate_token(s, 3), "abc...");
}

#[test]
fn truncate_short() {
    assert_eq!(truncate_token("abc", 10), "abc");
}

#[test]
fn truncate_long() {
    let long = "a".repeat(50);
    let result = truncate_token(&long, 10);
    assert_eq!(result, format!("{}...", "a".repeat(10)));
}

#[test]
fn truncation_counts_characters() {
    assert_eq!(truncate_token("\u{1f600}\u{1f601}\u{1f602}", 2), "\u{1f600}\u{1f601}...");
    assert_eq!(truncate_token("abc", 3), "abc");
    assert_eq!(truncate_token("abc", 0), "...");
    assert_eq!(truncate_token("", 0), "");
}
