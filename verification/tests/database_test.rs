use rusqlite::Connection;
use tesseras_repl::database::{
    migrate_from_hash_txt, statement, Statement, SCHEMA, SELECT_ENTRIES,
};
use tesseras_repl::protocol::{Action, Event};
use tesseras_repl::shell::ReplState;
use tesseras_repl::tokens::TokenEntry;

fn init_db(path: &std::path::Path) -> rusqlite::Result<Connection> {
    let conn = Connection::open(path)?;
    conn.execute_batch(SCHEMA)?;
    Ok(conn)
}

fn load_entries(conn: &Connection) -> rusqlite::Result<Vec<TokenEntry>> {
    let mut stmt = conn.prepare(SELECT_ENTRIES)?;
    let rows = stmt.query_map([], |row| {
        Ok(TokenEntry { token: row.get(0)?, alias: row.get(1)?, created_at: row.get(2)? })
    })?;
    rows.collect()
}

fn execute(conn: &Connection, s: &Statement) -> rusqlite::Result<usize> {
    conn.execute(s.sql, rusqlite::params_from_iter(s.params.iter()))
}

fn request(action: &Action) -> Statement {
    statement(action).expect("an action on the database")
}

/// Answers the actions of a command from the database, until the next prompt.
fn drive(state: &mut ReplState, conn: &Connection, mut action: Action) {
    loop {
        let event = match &action {
            Action::Prompt => return,
            Action::Store { .. } => Event::Stored { result: Ok("tok".into()), elapsed: "0.1".into() },
            Action::ReadCreatedAt { .. } => {
                let s = request(&action);
                Event::CreatedAt(
                    conn.query_row(s.sql, rusqlite::params_from_iter(s.params.iter()), |row| {
                        row.get::<_, String>(0)
                    })
                    .map_err(|e| e.to_string()),
                )
            }
            other => Event::DbDone(
                execute(conn, &request(other)).map(|_| ()).map_err(|e| e.to_string()),
            ),
        };
        assert!(state.awaits(&event));
        action = state.resume(event).action;
    }
}

fn assert_same(state: &ReplState, conn: &Connection) {
    let rows = load_entries(conn).unwrap();
    assert_eq!(state.entries().len(), rows.len());
    for (e, row) in state.entries().iter().zip(&rows) {
        assert_eq!(e.token, row.token);
        assert_eq!(e.alias, row.alias);
        assert_eq!(e.created_at, row.created_at);
    }
}

#[test]
fn db_init_and_insert() {
    let dir = tempfile::tempdir().unwrap();
    let db = init_db(&dir.path().join("test.db")).unwrap();
    let insert = request(&Action::InsertToken { token: "tok1".into(), alias: None });
    assert_eq!(insert.sql, "INSERT INTO tokens (token) VALUES (?1)");
    execute(&db, &insert).unwrap();
    let entries = load_entries(&db).unwrap();
    assert_eq!(entries.len(), 1);
    assert_eq!(entries[0].token, "tok1");
    assert!(entries[0].alias.is_none());
    assert!(!entries[0].created_at.is_empty());
}

#[test]
fn db_alias_unique() {
    let dir = tempfile::tempdir().unwrap();
    let db = init_db(&dir.path().join("test.db")).unwrap();
    let insert = request(&Action::InsertToken {
        token: "tok1".into(),
        alias: Some("name1".into()),
    });
    assert_eq!(insert.sql, "INSERT INTO tokens (token, alias) VALUES (?1, ?2)");
    execute(&db, &insert).unwrap();
    let result = execute(
        &db,
        &request(&Action::InsertToken { token: "tok2".into(), alias: Some("name1".into()) }),
    );
    assert!(result.is_err());
}

#[test]
fn db_migrate_from_hash_txt() {
    let dir = tempfile::tempdir().unwrap();
    let db = init_db(&dir.path().join("tokens.db")).unwrap();
    for s in migrate_from_hash_txt(b"tok1\ntok2\ntok1\n") {
        execute(&db, &s).unwrap();
    }

    let entries = load_entries(&db).unwrap();
    assert_eq!(entries.len(), 2);
    assert_eq!(entries[0].token, "tok1");
    assert_eq!(entries[1].token, "tok2");
}

#[test]
fn migrated_tokens_come_behind_the_known_ones() {
    let dir = tempfile::tempdir().unwrap();
    let db = init_db(&dir.path().join("tokens.db")).unwrap();
    let known = Action::InsertToken { token: "b".into(), alias: Some("name".into()) };
    execute(&db, &request(&known)).unwrap();
    for s in migrate_from_hash_txt(b"c\nb\na\n") {
        execute(&db, &s).unwrap();
    }
    let rows: Vec<(String, Option<String>)> =
        load_entries(&db).unwrap().into_iter().map(|e| (e.token, e.alias)).collect();
    assert_eq!(
        rows,
        vec![("b".into(), Some("name".into())), ("c".into(), None), ("a".into(), None)]
    );
}

#[test]
fn old_token_files_are_migrated_once() {
    let dir = tempfile::tempdir().unwrap();
    let db = init_db(&dir.path().join("tokens.db")).unwrap();
    let statements = migrate_from_hash_txt(b"tok1\ntok2\ntok1\n");
    assert_eq!(statements.len(), 2);
    for _ in 0..2 {
        for s in &statements {
            execute(&db, s).unwrap();
        }
    }
    let entries = load_entries(&db).unwrap();
    assert_eq!(entries.len(), 2);
    assert_eq!(entries[0].token, "tok1");
    assert_eq!(entries[1].token, "tok2");
    assert!(migrate_from_hash_txt(b" \n\n").is_empty());
}

#[test]
fn the_shell_and_the_table_agree() {
    let dir = tempfile::tempdir().unwrap();
    let db = init_db(&dir.path().join("tokens.db")).unwrap();
    for s in migrate_from_hash_txt(b"a\nb\nc\n") {
        execute(&db, &s).unwrap();
    }
    let mut state = ReplState::new(load_entries(&db).unwrap(), "key".into());
    for line in [
        "alias 1 first",
        "alias b \"second one\"",
        "alias first",
        "delete 3",
        "alias 1 second",
        "put --name mine hello",
        "put again",
        "put --name other hello",
        "delete second",
        "delete nothing",
    ] {
        let action = state.handle_command(line).action;
        drive(&mut state, &db, action);
        assert_same(&state, &db);
    }
    assert_eq!(state.entries().len(), 2);
    assert_eq!(state.entries()[1].alias.as_deref(), Some("other"));
}

#[test]
fn a_name_given_elsewhere_is_reported() {
    let dir = tempfile::tempdir().unwrap();
    let db = init_db(&dir.path().join("tokens.db")).unwrap();
    for s in migrate_from_hash_txt(b"a\nb\n") {
        execute(&db, &s).unwrap();
    }
    let mut state = ReplState::new(load_entries(&db).unwrap(), "key".into());
    let other = Action::SetAlias { token: "b".into(), alias: Some("taken".into()) };
    execute(&db, &request(&other)).unwrap();
    let action = state.handle_command("alias a taken").action;
    let failure = execute(&db, &request(&action)).unwrap_err().to_string();
    let reply = state.resume(Event::DbDone(Err(failure.clone())));
    assert_eq!(reply.lines[0].text, format!("error: {failure}"));
    assert!(state.entries()[0].alias.is_none());
}

#[test]
fn other_actions_have_no_statement() {
    assert_eq!(statement(&Action::Prompt), None);
    assert_eq!(statement(&Action::RunEditor), None);
    assert_eq!(
        statement(&Action::SetAlias { token: "t".into(), alias: None }),
        Some(Statement {
            sql: "UPDATE tokens SET alias = NULL WHERE token = ?1",
            params: vec!["t".into()]
        })
    );
    assert_eq!(
        statement(&Action::SetAlias { token: "t".into(), alias: Some("a".into()) }),
        Some(Statement {
            sql: "UPDATE tokens SET alias = ?1 WHERE token = ?2",
            params: vec!["a".into(), "t".into()]
        })
    );
    assert_eq!(
        statement(&Action::DeleteToken { token: "t".into() }),
        Some(Statement {
            sql: "DELETE FROM tokens WHERE token = ?1",
            params: vec!["t".into()]
        })
    );
    assert_eq!(
        statement(&Action::ReadCreatedAt { token: "t".into() }),
        Some(Statement {
            sql: "SELECT created_at FROM tokens WHERE token = ?1",
            params: vec!["t".into()]
        })
    );
}
