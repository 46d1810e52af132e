use tesseras_repl::content::{keys_of_chunks, split_data, token_text};
use tesseras_repl::protocol::{Action, Event, Line, NetFailure, Reply, Stream};
use tesseras_repl::session::{MAX_CONTENT_SIZE, MAX_FILE_SIZE};
use tesseras_repl::shell::{list_entries, split_alias_args, ReplState};
use tesseras_repl::tokens::TokenEntry;

fn out(text: &str) -> Line {
    Line { stream: Stream::Stdout, text: text.into() }
}

fn err(text: &str) -> Line {
    Line { stream: Stream::Stderr, text: text.into() }
}

fn entry(token: &str, alias: Option<&str>) -> TokenEntry {
    TokenEntry {
        token: token.into(),
        alias: alias.map(String::from),
        created_at: "2026-01-01 12:34:56".into(),
    }
}

fn sample() -> ReplState {
    ReplState::new(
        vec![entry("aaa", Some("photo")), entry("bbb", None), entry("ccc", Some("My Diary"))],
        "c0ffee".into(),
    )
}

fn token(digit: char, chunks: usize) -> String {
    digit.to_string().repeat(64 * chunks)
}

fn stored_sample() -> ReplState {
    ReplState::new(
        vec![
            entry(&token('a', 3), Some("photo")),
            entry(&token('b', 1), None),
            entry(&token('c', 2), Some("My Diary")),
        ],
        "c0ffee".into(),
    )
}

fn empty() -> ReplState {
    ReplState::new(vec![], "c0ffee".into())
}

fn assert_done(reply: Reply, lines: Vec<Line>) {
    assert_eq!(reply.lines, lines);
    assert_eq!(reply.action, Action::Prompt);
}

fn stored(result: Result<&str, NetFailure>) -> Event {
    Event::Stored { result: result.map(String::from), elapsed: "1.5".into() }
}

#[test]
fn blank_lines_do_nothing() {
    assert_done(sample().handle_command(""), vec![]);
    assert_done(sample().handle_command(" \t "), vec![]);
}

#[test]
fn unknown_commands_are_named() {
    assert_done(
        sample().handle_command(" fetch it "),
        vec![out("unknown command: fetch. try 'help' for a list of commands")],
    );
    assert_done(
        sample().handle_command("put\tx"),
        vec![out("unknown command: put\tx. try 'help' for a list of commands")],
    );
}

#[test]
fn exit_and_bye_quit() {
    assert_eq!(sample().handle_command(" exit ").action, Action::Quit);
    assert_eq!(sample().handle_command("bye now").action, Action::Quit);
    assert_eq!(sample().handle_command("exits").action, Action::Prompt);
}

#[test]
fn help_lists_the_commands() {
    let lines = sample().handle_command("help").lines;
    assert_eq!(lines.len(), 15);
    assert_eq!(lines[0], out("  put [--name <alias>] [--file <path> | <content>]"));
    assert_eq!(lines[14], out("  exit         Quit the REPL"));
    assert_eq!(sample().handle_command("?").lines, lines);
}

#[test]
fn put_stores_and_saves() {
    let mut state = empty();
    let reply = state.handle_command("put --name greeting hello world");
    assert_eq!(reply.lines, vec![err("storing 11 bytes (1 block, timeout=32s)...")]);
    assert_eq!(
        reply.action,
        Action::Store { data: b"hello world".to_vec(), blocks: 1, timeout: 32, progress: false }
    );
    let reply = state.resume(stored(Ok("tok")));
    assert_eq!(reply.lines, vec![err("store succeeded in 1.5s"), out("tok")]);
    assert_eq!(
        reply.action,
        Action::InsertToken { token: "tok".into(), alias: Some("greeting".into()) }
    );
    let reply = state.resume(Event::DbDone(Ok(())));
    assert_eq!(reply.action, Action::ReadCreatedAt { token: "tok".into() });
    let reply = state.resume(Event::CreatedAt(Ok("2026-02-03 04:05:06".into())));
    assert_done(reply, vec![]);
    assert_eq!(state.entries().len(), 1);
    assert_eq!(state.entries()[0].token, "tok");
    assert_eq!(state.entries()[0].alias.as_deref(), Some("greeting"));
    assert_eq!(state.entries()[0].created_at, "2026-02-03 04:05:06");
}

#[test]
fn put_of_a_known_token_only_names_it() {
    let mut state = sample();
    state.handle_command("put content");
    assert_done(
        state.resume(stored(Ok("bbb"))),
        vec![err("store succeeded in 1.5s"), out("bbb")],
    );
    assert_eq!(state.entries().len(), 3);
    state.handle_command("put --name notes content");
    let reply = state.resume(stored(Ok("bbb")));
    assert_eq!(
        reply.action,
        Action::SetAlias { token: "bbb".into(), alias: Some("notes".into()) }
    );
    assert_done(state.resume(Event::DbDone(Ok(()))), vec![]);
    assert_eq!(state.entries().len(), 3);
    assert_eq!(state.entries()[1].alias.as_deref(), Some("notes"));
}

#[test]
fn put_failures() {
    let mut state = sample();
    state.handle_command("put x");
    assert_done(
        state.resume(stored(Err(NetFailure::Failed("no peers".into())))),
        vec![err("error: no peers (after 1.5s)")],
    );
    state.handle_command("put x");
    assert_done(
        state.resume(stored(Err(NetFailure::TimedOut))),
        vec![err("error: store timed out (after 1.5s)")],
    );
    state.handle_command("put x");
    state.resume(stored(Ok("new")));
    assert_done(
        state.resume(Event::DbDone(Err("locked".into()))),
        vec![err("warning: failed to save token: locked")],
    );
    state.handle_command("put x");
    state.resume(stored(Ok("new")));
    state.resume(Event::DbDone(Ok(())));
    assert_done(
        state.resume(Event::CreatedAt(Err("gone".into()))),
        vec![err("warning: token saved but failed to read back: gone")],
    );
    state.handle_command("put --name n x");
    state.resume(stored(Ok("bbb")));
    assert_done(
        state.resume(Event::DbDone(Err("locked".into()))),
        vec![err("warning: failed to set alias: locked")],
    );
    assert_eq!(state.entries().len(), 3);
    assert!(state.entries()[1].alias.is_none());
}

#[test]
fn put_refusals() {
    assert_done(
        sample().handle_command("put"),
        vec![out("usage: put [--name <alias>] [--file <path> | <content>]")],
    );
    assert_done(
        sample().handle_command("put --name photo"),
        vec![out("usage: put [--name <alias>] [--file <path> | <content>]")],
    );
    assert_done(
        sample().handle_command("put --name photo x"),
        vec![err("error: alias 'photo' already exists")],
    );
    let big = "x".repeat(MAX_CONTENT_SIZE + 1);
    assert_done(
        sample().handle_command(&format!("put {big}")),
        vec![err("error: content too large (1048577 bytes, max 1048576)")],
    );
    let reply = sample().handle_command(&format!("put {}", &big[1..]));
    assert_eq!(reply.lines, vec![err("storing 1048576 bytes (4 blocks, timeout=38s)...")]);
}

#[test]
fn put_of_files() {
    let mut state = sample();
    let reply = state.handle_command("put --name \"my file\" --file  /tmp/a b ");
    assert_eq!(reply.action, Action::ReadFile { path: "/tmp/a b".into() });
    assert!(reply.lines.is_empty());
    let reply = state.resume(Event::FileRead(Ok(vec![])));
    assert_eq!(reply.lines, vec![err("storing 0 bytes (1 block, timeout=30s)...")]);
    assert_eq!(
        reply.action,
        Action::Store { data: vec![], blocks: 1, timeout: 30, progress: true }
    );
    let reply = state.resume(stored(Ok("new")));
    assert_eq!(
        reply.action,
        Action::InsertToken { token: "new".into(), alias: Some("my file".into()) }
    );
    let mut state = sample();
    state.handle_command("put --file f");
    assert_done(
        state.resume(Event::FileRead(Err("not found".into()))),
        vec![err("error: not found")],
    );
    state.handle_command("put --file f");
    assert_done(
        state.resume(Event::FileRead(Ok(vec![0; MAX_FILE_SIZE + 1]))),
        vec![err("error: file too large (67108865 bytes, max 67108864)")],
    );
    state.handle_command("put --name photo --file f");
    assert_done(
        state.resume(Event::FileRead(Ok(vec![1]))),
        vec![err("error: alias 'photo' already exists")],
    );
    assert_eq!(
        state.handle_command("put --name x --file").action,
        Action::Store { data: b"--file".to_vec(), blocks: 1, timeout: 32, progress: false }
    );
    let mut state = sample();
    assert_eq!(
        state.handle_command("put --name \"x\"--file \u{3000}").lines,
        vec![err("storing 6 bytes (1 block, timeout=32s)...")]
    );
}

#[test]
fn files_are_stored_in_limited_time() {
    let mut state = sample();
    state.handle_command("put --file f");
    let reply = state.resume(Event::FileRead(Ok(vec![7; MAX_FILE_SIZE])));
    assert_eq!(
        reply.lines,
        vec![err("storing 67108864 bytes (256 blocks, timeout=542s)...")]
    );
    assert_eq!(
        reply.action,
        Action::Store { data: vec![7; MAX_FILE_SIZE], blocks: 256, timeout: 542, progress: true }
    );
    assert_done(
        state.resume(stored(Err(NetFailure::TimedOut))),
        vec![err("error: store timed out (after 1.5s)")],
    );
    assert_eq!(state.entries().len(), 3);
}

#[test]
fn get_shows_and_saves() {
    let mut state = stored_sample();
    let reply = state.handle_command("get photo");
    assert!(reply.lines.is_empty());
    assert_eq!(
        reply.action,
        Action::Retrieve { token: token('a', 3), chunks: 3, timeout: 33, progress: false }
    );
    assert_done(
        state.resume(Event::Retrieved(Ok("h\u{e9}llo".into()))),
        vec![out("h\u{e9}llo")],
    );
    let reply = state.handle_command(&format!("get {}", token('d', 1000)));
    assert_eq!(
        reply.action,
        Action::Retrieve { token: token('d', 1000), chunks: 1000, timeout: 600, progress: false }
    );
    let reply = state.resume(Event::Retrieved(Ok(b"a\xffb".to_vec())));
    assert_eq!(reply.lines, vec![out("a\u{fffd}b")]);
    assert_eq!(reply.action, Action::InsertToken { token: token('d', 1000), alias: None });
}

#[test]
fn what_is_put_comes_back() {
    let mut state = empty();
    let reply = state.handle_command("put  h\u{e9} \u{1f600}  x ");
    let Action::Store { data, .. } = reply.action else { panic!("{:?}", reply.action) };
    let keys = keys_of_chunks(&split_data(&data));
    let stored_token = token_text(&keys);
    state.resume(stored(Ok(&stored_token)));
    state.resume(Event::DbDone(Ok(())));
    state.resume(Event::CreatedAt(Ok("now".into())));
    let reply = state.handle_command("get 1");
    assert_eq!(
        reply.action,
        Action::Retrieve { token: stored_token, chunks: 1, timeout: 31, progress: false }
    );
    assert_done(
        state.resume(Event::Retrieved(Ok(data))),
        vec![out("h\u{e9} \u{1f600}  x")],
    );
}

#[test]
fn get_failures() {
    let mut state = stored_sample();
    assert_done(
        state.handle_command("get"),
        vec![out("usage: get [--file <token|index|alias> <output>] | <token|index|alias>")],
    );
    let invalid = "error: invalid token: expected 64 hexadecimal digits per chunk";
    assert_done(state.handle_command("get x"), vec![err(invalid)]);
    assert_done(state.handle_command("get --file x out"), vec![err(invalid)]);
    assert_done(sample().handle_command("get photo"), vec![err(invalid)]);
    state.handle_command("get 1");
    assert_done(
        state.resume(Event::Retrieved(Err(NetFailure::Failed("lost".into())))),
        vec![err("error: lost")],
    );
    state.handle_command("get 1");
    assert_done(
        state.resume(Event::Retrieved(Err(NetFailure::TimedOut))),
        vec![err("error: retrieve timed out")],
    );
    assert_done(
        state.handle_command("get --file photo"),
        vec![err("error: usage: get --file <token|index|alias> <output>")],
    );
}

#[test]
fn get_into_files() {
    let mut state = stored_sample();
    let reply = state.handle_command("get --file My Diary out.txt");
    assert_eq!(reply.lines, vec![err("retrieving 2 chunks (timeout=32s)...")]);
    assert_eq!(
        reply.action,
        Action::Retrieve { token: token('c', 2), chunks: 2, timeout: 32, progress: true }
    );
    let reply = state.resume(Event::Retrieved(Ok(vec![0xff, 0])));
    assert!(reply.lines.is_empty());
    assert_eq!(
        reply.action,
        Action::WriteFile { path: "out.txt".into(), data: vec![0xff, 0] }
    );
    assert_done(
        state.resume(Event::FileWritten(Ok(()))),
        vec![err("wrote 2 bytes to out.txt")],
    );
    state.handle_command("get --file 1 out");
    state.resume(Event::Retrieved(Ok(vec![1])));
    assert_done(
        state.resume(Event::FileWritten(Err("read-only".into()))),
        vec![err("error: read-only")],
    );
}

#[test]
fn delete_removes_an_entry() {
    let mut state = sample();
    let reply = state.handle_command("delete bbb");
    assert_eq!(reply.action, Action::DeleteToken { token: "bbb".into() });
    assert_done(state.resume(Event::DbDone(Ok(()))), vec![out("deleted")]);
    assert_eq!(state.entries().len(), 2);
    assert_eq!(state.entries()[1].token, "ccc");
    state.handle_command("delete 2");
    assert_done(
        state.resume(Event::DbDone(Err("locked".into()))),
        vec![err("error: locked")],
    );
    assert_eq!(state.entries().len(), 2);
    assert_done(
        state.handle_command("delete bbb"),
        vec![err("error: token not found: bbb")],
    );
    assert_done(
        state.handle_command("delete"),
        vec![out("usage: delete <token|index|alias>")],
    );
}

#[test]
fn alias_sets_and_removes() {
    let mut state = sample();
    let reply = state.handle_command("alias 2 \"two words\"");
    assert_eq!(
        reply.action,
        Action::SetAlias { token: "bbb".into(), alias: Some("two words".into()) }
    );
    assert_done(state.resume(Event::DbDone(Ok(()))), vec![out("alias set: two words")]);
    assert_eq!(state.entries()[1].alias.as_deref(), Some("two words"));
    let reply = state.handle_command("alias bbb");
    assert_eq!(reply.action, Action::SetAlias { token: "bbb".into(), alias: None });
    assert_done(state.resume(Event::DbDone(Ok(()))), vec![out("alias removed")]);
    assert!(state.entries()[1].alias.is_none());
    assert_done(
        state.handle_command("alias 2 photo"),
        vec![err("error: alias 'photo' already exists")],
    );
    assert_done(
        state.handle_command("alias none x"),
        vec![err("error: token not found: none")],
    );
    assert_done(
        state.handle_command("alias"),
        vec![out("usage: alias <token|index> [name]")],
    );
    state.handle_command("alias 2 x");
    assert_done(
        state.resume(Event::DbDone(Err("locked".into()))),
        vec![err("error: locked")],
    );
}

#[test]
fn alias_arguments() {
    assert_eq!(split_alias_args("1"), ("1", None));
    assert_eq!(split_alias_args("1 \"\""), ("1", None));
    assert_eq!(split_alias_args("1 \""), ("1", Some("\"".into())));
    assert_eq!(split_alias_args("1  \"a b\""), ("1", Some("a b".into())));
    assert_eq!(split_alias_args("1 a\""), ("1", Some("a\"".into())));
}

#[test]
fn info_tells_of_the_node() {
    let mut state = sample();
    assert_eq!(state.handle_command("info").action, Action::ReadInfo);
    assert_done(
        state.resume(Event::Info {
            node_id: "id".into(),
            local_addr: "[::]:4433".into(),
            peers: 7,
        }),
        vec![
            out("  node id    : id"),
            out("  public key : c0ffee"),
            out("  listening  : [::]:4433"),
            out("  peers      : 7"),
            out("  tokens     : 3"),
        ],
    );
}

#[test]
fn edit_composes_and_stores() {
    let mut state = sample();
    assert_eq!(state.handle_command("edit --name essay").action, Action::RunEditor);
    let reply = state.resume(Event::Edited(Ok(" text\n".into())));
    assert!(reply.lines.is_empty());
    assert_eq!(
        reply.action,
        Action::Store { data: b" text\n".to_vec(), blocks: 1, timeout: 30, progress: false }
    );
    let reply = state.resume(stored(Ok("new")));
    assert_eq!(reply.lines, vec![out("new")]);
    assert_eq!(
        reply.action,
        Action::InsertToken { token: "new".into(), alias: Some("essay".into()) }
    );
}

#[test]
fn edit_failures() {
    let mut state = sample();
    assert_done(
        state.handle_command("edit --name photo"),
        vec![err("error: alias 'photo' already exists")],
    );
    state.handle_command("edit");
    assert_done(
        state.resume(Event::Edited(Ok(" \n".into()))),
        vec![out("(empty content, nothing stored)")],
    );
    state.handle_command("edit");
    assert_done(
        state.resume(Event::Edited(Ok("x".repeat(MAX_CONTENT_SIZE + 1)))),
        vec![err("error: content too large (1048577 bytes, max 1048576)")],
    );
    state.handle_command("edit");
    assert_done(
        state.resume(Event::Edited(Err("editor exited with 1".into()))),
        vec![err("error: editor exited with 1")],
    );
    state.handle_command("edit");
    state.resume(Event::Edited(Ok("x".into())));
    assert_done(
        state.resume(stored(Err(NetFailure::Failed("no peers".into())))),
        vec![err("error: no peers")],
    );
    state.handle_command("edit");
    state.resume(Event::Edited(Ok("x".into())));
    assert_done(
        state.resume(stored(Err(NetFailure::TimedOut))),
        vec![err("error: store timed out")],
    );
}

#[test]
fn list_shows_numbers_times_and_names() {
    assert_done(
        sample().handle_command("list"),
        vec![
            out("  1: [2026-01-01 12:34] photo"),
            out("  2: [2026-01-01 12:34] bbb"),
            out("  3: [2026-01-01 12:34] My Diary"),
        ],
    );
    assert_done(
        sample().handle_command("list -n 1"),
        vec![out("  3: [2026-01-01 12:34] My Diary")],
    );
    assert_done(
        sample().handle_command("list DIARY"),
        vec![out("  3: [2026-01-01 12:34] My Diary")],
    );
    assert_done(sample().handle_command("list -n 0"), vec![out("(no matches)")]);
    assert_done(sample().handle_command("list bbb"), vec![out("(no matches)")]);
    assert_done(empty().handle_command("list"), vec![out("(no tokens stored)")]);
}

#[test]
fn list_cuts_long_tokens_and_keeps_short_times() {
    let mut e = entry(&"t".repeat(41), None);
    e.created_at = "today".into();
    assert_done(
        ReplState::new(vec![e], String::new()).handle_command("list"),
        vec![out(&format!("  1: [today] {}...", "t".repeat(40)))],
    );
}

#[test]
fn folded_names_are_what_is_filtered() {
    let entries = vec![entry("a", Some("one")), entry("b", None), entry("c", Some("two"))];
    let folded = vec![Some("xo".to_string()), None, Some("yo".to_string())];
    let lines = list_entries(&entries, &folded, None, &Some("y".into()));
    assert_eq!(lines, vec![out("  3: [2026-01-01 12:34] two")]);
    let lines = list_entries(&entries, &folded, Some(1), &Some("o".into()));
    assert_eq!(lines, vec![out("  3: [2026-01-01 12:34] two")]);
}

#[test]
fn listed_numbers_refer_to_entries() {
    let mut state = sample();
    for (i, token) in ["aaa", "bbb", "ccc"].iter().enumerate() {
        let reply = state.handle_command(&format!("delete {}", i + 1));
        assert_eq!(reply.action, Action::DeleteToken { token: token.to_string() });
        state.resume(Event::DbDone(Err(String::new())));
    }
}

#[test]
fn saving_asks_the_table() {
    let mut state = sample();
    let reply = state.save_token("new".into(), Some("n".into()), vec![out("x")]);
    assert_eq!(reply.lines, vec![out("x")]);
    assert_eq!(
        reply.action,
        Action::InsertToken { token: "new".into(), alias: Some("n".into()) }
    );
    state.resume(Event::DbDone(Ok(())));
    state.resume(Event::CreatedAt(Ok("now".into())));
    assert_done(state.save_token("new".into(), None, vec![]), vec![]);
    assert_eq!(
        state.save_token("new".into(), Some("m".into()), vec![]).action,
        Action::SetAlias { token: "new".into(), alias: Some("m".into()) }
    );
    state.resume(Event::DbDone(Ok(())));
    assert_eq!(state.entries()[3].alias.as_deref(), Some("m"));
}

#[test]
fn entries_that_occur_twice_are_kept() {
    let mut state = ReplState::new(vec![entry("t", None), entry("t", None)], String::new());
    state.handle_command("delete 1");
    assert_done(state.resume(Event::DbDone(Ok(()))), vec![out("deleted")]);
    assert_eq!(state.entries().len(), 1);
    // The token is no longer known, though an entry with it is left.
    assert_eq!(
        state.save_token("t".into(), None, vec![]).action,
        Action::InsertToken { token: "t".into(), alias: None }
    );
}

#[test]
fn only_what_is_awaited_is_taken() {
    let mut state = sample();
    assert!(!state.awaits(&Event::DbDone(Ok(()))));
    assert_eq!(
        state.try_command("delete 1").map(|r| r.action),
        Some(Action::DeleteToken { token: "aaa".into() })
    );
    assert_eq!(state.try_command("list"), None);
    assert!(state.awaits(&Event::DbDone(Ok(()))));
    assert!(state.awaits(&Event::DbDone(Err(String::new()))));
    assert!(!state.awaits(&Event::FileWritten(Ok(()))));
    state.resume(Event::DbDone(Ok(())));
    assert_eq!(state.try_command("list").map(|r| r.lines.len()), Some(2));
}

#[test]
fn times_that_cannot_be_cut_are_not_listed() {
    let mut odd = entry("t", Some("odd"));
    odd.created_at = "2026-01-01 12:3\u{e9}".into();
    let mut state = ReplState::new(vec![odd, entry("u", Some("even"))], String::new());
    assert_eq!(state.try_command(" list"), None);
    assert_eq!(state.try_command("list ODD"), None);
    assert_done(
        state.try_command("list even").unwrap(),
        vec![out("  2: [2026-01-01 12:34] even")],
    );
    assert_done(
        state.try_command("list -n 1").unwrap(),
        vec![out("  2: [2026-01-01 12:34] even")],
    );
    assert!(state.try_command("lists").is_some());
}
