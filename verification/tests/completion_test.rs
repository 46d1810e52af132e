use tesseras_repl::completion::{
    clip_token, collect_aliases, collect_tokens, match_aliases, match_commands, Candidate,
    ReplHelper,
};
use tesseras_repl::shell::ReplState;
use tesseras_repl::protocol::Event;
use tesseras_repl::tokens::TokenEntry;

fn entry(token: &str, alias: Option<&str>) -> TokenEntry {
    TokenEntry {
        token: token.into(),
        alias: alias.map(String::from),
        created_at: "2026-01-01 00:00:00".into(),
    }
}

fn both(text: &str) -> Candidate {
    Candidate { display: text.into(), replacement: text.into() }
}

fn sample() -> ReplHelper {
    ReplHelper::new(&[
        entry("photo-token", None),
        entry("0123456789012345678901", Some("Photo")),
        entry("01234567890123456789", Some("diary")),
    ])
}

#[test]
fn names_come_before_tokens() {
    let (start, list) = sample().complete("get ph").unwrap();
    assert_eq!(start, 4);
    assert_eq!(list, vec![both("Photo"), both("photo-token")]);
}

#[test]
fn names_match_in_any_case_and_tokens_exactly() {
    let (start, list) = sample().complete("delete   PH").unwrap();
    assert_eq!(start, 9);
    assert_eq!(list, vec![both("Photo")]);
}

#[test]
fn long_tokens_are_clipped_for_display() {
    let (_, list) = sample().complete("get 01").unwrap();
    assert_eq!(
        list,
        vec![
            Candidate {
                display: "01234567890123456789...".into(),
                replacement: "0123456789012345678901".into()
            },
            both("01234567890123456789"),
        ]
    );
    assert_eq!(clip_token("\u{e9}\u{e9}\u{e9}\u{e9}\u{e9}\u{e9}\u{e9}\u{e9}\u{e9}\u{e9}x"), "\u{e9}\u{e9}\u{e9}\u{e9}\u{e9}\u{e9}\u{e9}\u{e9}\u{e9}\u{e9}...");
}

#[test]
fn an_empty_reference_offers_everything() {
    let (start, list) = sample().complete("get ").unwrap();
    assert_eq!(start, 4);
    assert_eq!(list.len(), 5);
}

#[test]
fn commands_complete_at_the_start() {
    assert_eq!(sample().complete("e"), Some((0, vec![both("edit"), both("exit")])));
    assert_eq!(sample().complete("bye"), Some((0, vec![both("bye")])));
    let (_, all) = sample().complete("").unwrap();
    assert_eq!(
        all,
        ["put", "get", "delete", "alias", "info", "list", "edit", "help", "exit", "bye"]
            .map(both)
    );
    assert_eq!(match_commands("x"), vec![]);
}

#[test]
fn files_are_offered_otherwise() {
    assert_eq!(sample().complete("get nothing"), None);
    assert_eq!(sample().complete("put --file x"), None);
    assert_eq!(sample().complete("zzz"), None);
}

#[test]
fn names_fold_by_unicode() {
    let helper = ReplHelper::new(&[entry("t", Some("\u{c4}PFEL"))]);
    assert_eq!(helper.complete("get \u{e4}p"), Some((4, vec![both("\u{c4}PFEL")])));
    assert_eq!(
        match_aliases(&vec!["A".into(), "B".into()], &vec!["x1".into(), "y1".into()], "y"),
        vec![both("B")]
    );
}

#[test]
fn helpers_hold_tokens_and_names() {
    let list = [entry("a", None), entry("b", Some("n"))];
    assert_eq!(collect_tokens(&list), vec!["a", "b"]);
    assert_eq!(collect_aliases(&list), vec!["n"]);
    let mut helper = sample();
    assert!(helper.can_complete("get "));
    helper.sync(&list);
    assert_eq!(helper.tokens, vec!["a", "b"]);
    assert_eq!(helper.aliases, vec!["n"]);
    let wide = ReplHelper::new(&[entry("0123456789012345678\u{e9}x", None)]);
    assert!(!wide.can_complete("get  01"));
    assert!(!wide.can_complete("delete "));
    assert!(wide.can_complete("get 1"));
    assert!(wide.can_complete("ge"));
}

#[test]
fn helpers_follow_the_shell() {
    let entries = vec![entry("a", Some("n")), entry("b", None)];
    let mut helper = ReplHelper::new(&entries);
    let mut state = ReplState::new(entries, "key".into());
    state.sync(&mut helper);
    assert_eq!(helper.tokens, vec!["a", "b"]);
    state.handle_command("delete n");
    state.resume(Event::DbDone(Ok(())));
    state.sync(&mut helper);
    assert_eq!(helper.tokens, vec!["b"]);
    assert!(helper.aliases.is_empty());
}
