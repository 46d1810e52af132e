//! The table of tokens in the database: the statements that the shell has run on it, and how the
//! shell's entries follow the table.

use crate::protocol::{Action, Event, Pending};
use crate::session::{
    alias_args, alias_is_free, aliases_differ, awaited, command_of, on_event, on_line,
    lemma_one_more_token, lemma_same_tokens, references_resolve_to_entries, save_step, tokens_differ,
    Session,
};
use crate::text::{find_where, lemma_find_where_is, texts};
use crate::tokens::{
    distinct_lines_are_kept_in_order, has_token, load_tokens, raw_lines, readable_lines, tokens_in,
    with_token, Entry,
};
use vstd::prelude::*;
use vstd::string::*;

verus! {

/// Creates the table of tokens where there is none: tokens and names are unique in it.
pub const SCHEMA: &'static str = "PRAGMA journal_mode=WAL;
        CREATE TABLE IF NOT EXISTS tokens (
            id INTEGER PRIMARY KEY AUTOINCREMENT,
            token TEXT NOT NULL UNIQUE,
            alias TEXT UNIQUE,
            created_at TEXT NOT NULL
                DEFAULT (strftime('%Y-%m-%d %H:%M:%S', 'now'))
        );";

/// Reads the rows of the table in the order in which they were added.
pub const SELECT_ENTRIES: &'static str = "SELECT token, alias, created_at FROM tokens ORDER BY id";

/// A statement with the values of its parameters.
#[derive(Debug, PartialEq)]
pub struct Statement {
    pub sql: &'static str,
    pub params: Vec<String>,
}

/// The text of the statement that carries out an action on the database.
pub open spec fn sql_of(action: Action<Seq<char>, Seq<u8>>) -> Option<Seq<char>> {
    match action {
        Action::SetAlias { token, alias: Some(a) } => Some(
            "UPDATE tokens SET alias = ?1 WHERE token = ?2"@,
        ),
        Action::SetAlias { token, alias: None } => Some(
            "UPDATE tokens SET alias = NULL WHERE token = ?1"@,
        ),
        Action::InsertToken { token, alias: Some(a) } => Some(
            "INSERT INTO tokens (token, alias) VALUES (?1, ?2)"@,
        ),
        Action::InsertToken { token, alias: None } => Some(
            "INSERT INTO tokens (token) VALUES (?1)"@,
        ),
        Action::DeleteToken { token } => Some("DELETE FROM tokens WHERE token = ?1"@),
        Action::ReadCreatedAt { token } => Some(
            "SELECT created_at FROM tokens WHERE token = ?1"@,
        ),
        _ => None,
    }
}

/// The values of its parameters.
pub open spec fn params_of(action: Action<Seq<char>, Seq<u8>>) -> Seq<Seq<char>> {
    match action {
        Action::SetAlias { token, alias: Some(a) } => seq![a, token],
        Action::SetAlias { token, alias: None } => seq![token],
        Action::InsertToken { token, alias: Some(a) } => seq![token, a],
        Action::InsertToken { token, alias: None } => seq![token],
        Action::DeleteToken { token } => seq![token],
        Action::ReadCreatedAt { token } => seq![token],
        _ => seq![],
    }
}

fn one(a: &String) -> (r: Vec<String>)
    ensures
        texts(r@) == seq![a@],
{
    let mut r: Vec<String> = Vec::new();
    r.push(a.as_str().to_owned());
    assert(texts(r@) =~= seq![a@]);
    r
}

fn two(a: &String, b: &String) -> (r: Vec<String>)
    ensures
        texts(r@) == seq![a@, b@],
{
    let mut r: Vec<String> = Vec::new();
    r.push(a.as_str().to_owned());
    r.push(b.as_str().to_owned());
    assert(texts(r@) =~= seq![a@, b@]);
    r
}

/// The statement that carries out an action on the database; other actions have none.
pub fn statement(action: &Action) -> (r: Option<Statement>)
    ensures
        match r {
            Some(s) => sql_of(action@) == Some(s.sql@) && texts(s.params@) == params_of(action@),
            None => sql_of(action@) is None,
        },
{
    match action {
        Action::SetAlias { token, alias } => match alias {
            Some(a) => Some(
                Statement {
                    sql: "UPDATE tokens SET alias = ?1 WHERE token = ?2",
                    params: two(a, token),
                },
            ),
            None => Some(
                Statement {
                    sql: "UPDATE tokens SET alias = NULL WHERE token = ?1",
                    params: one(token),
                },
            ),
        },
        Action::InsertToken { token, alias } => match alias {
            Some(a) => Some(
                Statement {
                    sql: "INSERT INTO tokens (token, alias) VALUES (?1, ?2)",
                    params: two(token, a),
                },
            ),
            None => Some(
                Statement { sql: "INSERT INTO tokens (token) VALUES (?1)", params: one(token) },
            ),
        },
        Action::DeleteToken { token } => Some(
            Statement { sql: "DELETE FROM tokens WHERE token = ?1", params: one(token) },
        ),
        Action::ReadCreatedAt { token } => Some(
            Statement {
                sql: "SELECT created_at FROM tokens WHERE token = ?1",
                params: one(token),
            },
        ),
        _ => None,
    }
}

/// The statements for the tokens of an old token file, one per token: a token that the table
/// has already is passed over. No statements mean that there is nothing to migrate, and the file
/// stays.
pub fn migrate_from_hash_txt(bytes: &[u8]) -> (r: Vec<Statement>)
    ensures
        r@.len() == tokens_in(bytes@).len(),
        forall|i: int|
            0 <= i < r@.len() ==> (#[trigger] r@[i]).sql@
                == "INSERT OR IGNORE INTO tokens (token) VALUES (?1)"@ && texts(r@[i].params@)
                == seq![tokens_in(bytes@)[i]],
{
    let tokens = load_tokens(bytes);
    let mut r: Vec<Statement> = Vec::new();
    let mut i: usize = 0;
    while i < tokens.len()
        invariant
            i <= tokens@.len(),
            r@.len() == i,
            texts(tokens@) == tokens_in(bytes@),
            forall|j: int|
                0 <= j < i ==> (#[trigger] r@[j]).sql@
                    == "INSERT OR IGNORE INTO tokens (token) VALUES (?1)"@ && texts(r@[j].params@)
                    == seq![tokens_in(bytes@)[j]],
        decreases tokens@.len() - i,
    {
        assert(texts(tokens@)[i as int] == tokens@[i as int]@);
        r.push(
            Statement {
                sql: "INSERT OR IGNORE INTO tokens (token) VALUES (?1)",
                params: one(&tokens[i]),
            },
        );
        i += 1;
    }
    r
}

/// A statement does to the table what the action says, and each value stands where its placeholder
/// is: the name and the token just as the action has them.
pub proof fn statements_carry_their_values(token: Seq<char>, a: Seq<char>)
    ensures
        ({
            let action = Action::InsertToken::<Seq<char>, Seq<u8>> { token, alias: Some(a) };
            &&& sql_of(action) matches Some(sql)
            &&& "INSERT INTO tokens"@.is_prefix_of(sql)
            &&& "(token, alias) VALUES (?1, ?2)"@.is_suffix_of(sql)
            &&& params_of(action) == seq![token, a]
        }),
        ({
            let action = Action::InsertToken::<Seq<char>, Seq<u8>> { token, alias: None };
            &&& sql_of(action) matches Some(sql)
            &&& "INSERT INTO tokens"@.is_prefix_of(sql)
            &&& "(token) VALUES (?1)"@.is_suffix_of(sql)
            &&& params_of(action) == seq![token]
        }),
        ({
            let action = Action::SetAlias::<Seq<char>, Seq<u8>> { token, alias: Some(a) };
            &&& sql_of(action) matches Some(sql)
            &&& "UPDATE tokens SET alias = ?1"@.is_prefix_of(sql)
            &&& " WHERE token = ?2"@.is_suffix_of(sql)
            &&& params_of(action) == seq![a, token]
        }),
        ({
            let action = Action::SetAlias::<Seq<char>, Seq<u8>> { token, alias: None };
            &&& sql_of(action) matches Some(sql)
            &&& "UPDATE tokens SET alias = NULL"@.is_prefix_of(sql)
            &&& " WHERE token = ?1"@.is_suffix_of(sql)
            &&& params_of(action) == seq![token]
        }),
        ({
            let action = Action::DeleteToken::<Seq<char>, Seq<u8>> { token };
            &&& sql_of(action) matches Some(sql)
            &&& "DELETE FROM tokens"@.is_prefix_of(sql)
            &&& " WHERE token = ?1"@.is_suffix_of(sql)
            &&& params_of(action) == seq![token]
        }),
        ({
            let action = Action::ReadCreatedAt::<Seq<char>, Seq<u8>> { token };
            &&& sql_of(action) matches Some(sql)
            &&& "SELECT created_at FROM tokens"@.is_prefix_of(sql)
            &&& " WHERE token = ?1"@.is_suffix_of(sql)
            &&& params_of(action) == seq![token]
        }),
{
    lemma_insert_statements();
    lemma_update_statements();
    lemma_other_statements();
}

proof fn lemma_insert_statements()
    ensures
        "INSERT INTO tokens"@.is_prefix_of("INSERT INTO tokens (token, alias) VALUES (?1, ?2)"@),
        "(token, alias) VALUES (?1, ?2)"@.is_suffix_of(
            "INSERT INTO tokens (token, alias) VALUES (?1, ?2)"@,
        ),
        "INSERT INTO tokens"@.is_prefix_of("INSERT INTO tokens (token) VALUES (?1)"@),
        "(token) VALUES (?1)"@.is_suffix_of("INSERT INTO tokens (token) VALUES (?1)"@),
{
    reveal_strlit("INSERT INTO tokens");
    reveal_strlit("INSERT INTO tokens (token, alias) VALUES (?1, ?2)");
    reveal_strlit("(token, alias) VALUES (?1, ?2)");
    reveal_strlit("INSERT INTO tokens (token) VALUES (?1)");
    reveal_strlit("(token) VALUES (?1)");
    let x = "INSERT INTO tokens (token, alias) VALUES (?1, ?2)"@;
    let y = "INSERT INTO tokens (token) VALUES (?1)"@;
    assert(x.subrange(0, 18) =~= "INSERT INTO tokens"@);
    assert(x.subrange(19, x.len() as int) =~= "(token, alias) VALUES (?1, ?2)"@);
    assert(y.subrange(0, 18) =~= "INSERT INTO tokens"@);
    assert(y.subrange(19, y.len() as int) =~= "(token) VALUES (?1)"@);
}

proof fn lemma_update_statements()
    ensures
        "UPDATE tokens SET alias = ?1"@.is_prefix_of(
            "UPDATE tokens SET alias = ?1 WHERE token = ?2"@,
        ),
        " WHERE token = ?2"@.is_suffix_of("UPDATE tokens SET alias = ?1 WHERE token = ?2"@),
        "UPDATE tokens SET alias = NULL"@.is_prefix_of(
            "UPDATE tokens SET alias = NULL WHERE token = ?1"@,
        ),
        " WHERE token = ?1"@.is_suffix_of("UPDATE tokens SET alias = NULL WHERE token = ?1"@),
{
    reveal_strlit("UPDATE tokens SET alias = ?1");
    reveal_strlit("UPDATE tokens SET alias = ?1 WHERE token = ?2");
    reveal_strlit(" WHERE token = ?2");
    reveal_strlit("UPDATE tokens SET alias = NULL");
    reveal_strlit("UPDATE tokens SET alias = NULL WHERE token = ?1");
    reveal_strlit(" WHERE token = ?1");
    let x = "UPDATE tokens SET alias = ?1 WHERE token = ?2"@;
    let y = "UPDATE tokens SET alias = NULL WHERE token = ?1"@;
    assert(x.subrange(0, 28) =~= "UPDATE tokens SET alias = ?1"@);
    assert(x.subrange(28, x.len() as int) =~= " WHERE token = ?2"@);
    assert(y.subrange(0, 30) =~= "UPDATE tokens SET alias = NULL"@);
    assert(y.subrange(30, y.len() as int) =~= " WHERE token = ?1"@);
}

proof fn lemma_other_statements()
    ensures
        "DELETE FROM tokens"@.is_prefix_of("DELETE FROM tokens WHERE token = ?1"@),
        " WHERE token = ?1"@.is_suffix_of("DELETE FROM tokens WHERE token = ?1"@),
        "SELECT created_at FROM tokens"@.is_prefix_of(
            "SELECT created_at FROM tokens WHERE token = ?1"@,
        ),
        " WHERE token = ?1"@.is_suffix_of("SELECT created_at FROM tokens WHERE token = ?1"@),
{
    reveal_strlit("DELETE FROM tokens");
    reveal_strlit("DELETE FROM tokens WHERE token = ?1");
    reveal_strlit(" WHERE token = ?1");
    reveal_strlit("SELECT created_at FROM tokens");
    reveal_strlit("SELECT created_at FROM tokens WHERE token = ?1");
    let x = "DELETE FROM tokens WHERE token = ?1"@;
    let y = "SELECT created_at FROM tokens WHERE token = ?1"@;
    assert(x.subrange(0, 18) =~= "DELETE FROM tokens"@);
    assert(x.subrange(18, x.len() as int) =~= " WHERE token = ?1"@);
    assert(y.subrange(0, 29) =~= "SELECT created_at FROM tokens"@);
    assert(y.subrange(29, y.len() as int) =~= " WHERE token = ?1"@);
}

// -- The table --------------------------------------------------------------------------------

/// Another row than the one with `token` has the name.
pub open spec fn named_elsewhere(
    table: Seq<Entry>,
    token: Seq<char>,
    alias: Option<Seq<char>>,
) -> bool {
    alias is Some && exists|i: int|
        0 <= i < table.len() && (#[trigger] table[i]).token != token && table[i].alias == alias
}

/// The rows of a table of unique tokens and unique names after an action at the time `now`, or
/// nothing when the table refuses it.
pub open spec fn table_after(
    table: Seq<Entry>,
    action: Action<Seq<char>, Seq<u8>>,
    now: Seq<char>,
) -> Option<Seq<Entry>> {
    match action {
        Action::InsertToken { token, alias } => if has_token(table, token) || !alias_is_free(
            table,
            alias,
        ) {
            None
        } else {
            Some(table.push(Entry { token, alias, created_at: now }))
        },
        Action::SetAlias { token, alias } => if named_elsewhere(table, token, alias) {
            None
        } else {
            Some(
                table.map_values(
                    |e: Entry|
                        if e.token == token {
                            Entry { alias, ..e }
                        } else {
                            e
                        },
                ),
            )
        },
        Action::DeleteToken { token } => Some(table.filter(|e: Entry| e.token != token)),
        _ => Some(table),
    }
}

/// The predicate that holds of the tokens that a table lacks.
pub open spec fn missing_from(table: Seq<Entry>) -> spec_fn(Seq<char>) -> bool {
    |t: Seq<char>| !has_token(table, t)
}

/// Rows for tokens that are added at the time `now`, without names.
pub open spec fn rows_for(tokens: Seq<Seq<char>>, now: Seq<char>) -> Seq<Entry> {
    tokens.map_values(|t: Seq<char>| Entry { token: t, alias: None, created_at: now })
}

/// The rows of a table after the tokens of an old token file were migrated at the time `now`.
pub open spec fn migrated(table: Seq<Entry>, tokens: Seq<Seq<char>>, now: Seq<char>) -> Seq<Entry>
    decreases tokens.len(),
{
    if tokens.len() == 0 {
        table
    } else {
        let before = migrated(table, tokens.drop_last(), now);
        if has_token(before, tokens.last()) {
            before
        } else {
            before.push(Entry { token: tokens.last(), alias: None, created_at: now })
        }
    }
}

/// What the command asks of the table while it waits for it.
pub open spec fn request_of(s: Session) -> Option<Action<Seq<char>, Seq<u8>>> {
    match s.pending {
        Pending::AliasSaved { token, alias } => Some(
            Action::SetAlias { token, alias: Some(alias) },
        ),
        Pending::TokenInserted { token, alias } => Some(Action::InsertToken { token, alias }),
        Pending::Deleted { index } => Some(
            Action::DeleteToken { token: s.entries[index as int].token },
        ),
        Pending::AliasChanged { index, alias } => Some(
            Action::SetAlias { token: s.entries[index as int].token, alias },
        ),
        _ => None,
    }
}

/// The entries once the table has done what the command asks.
pub open spec fn entries_after_success(s: Session, now: Seq<char>) -> Seq<Entry> {
    let t = on_event(s, Event::DbDone(Ok(()))).session;
    if t.pending is CreatedAtRead {
        on_event(t, Event::CreatedAt(Ok(now))).session.entries
    } else {
        t.entries
    }
}

/// A command that waits for the table has asked it for just that.
pub proof fn commands_ask_for_what_they_wait_for(s: Session, line: Seq<char>)
    requires
        s.pending is Idle,
        s.entries.len() <= usize::MAX,
    ensures
        request_of(on_line(s, line).session) matches Some(a) ==> on_line(s, line).action == a,
{
    let (cmd, arg) = command_of(line);
    references_resolve_to_entries(s.entries, arg);
    references_resolve_to_entries(s.entries, alias_args(arg).0);
}

/// A command that goes on to wait for the table has asked it for just that.
pub proof fn events_ask_for_what_they_wait_for(s: Session, e: Event<Seq<char>, Seq<u8>>)
    requires
        awaited(s.pending, e),
    ensures
        request_of(on_event(s, e).session) matches Some(a) ==> on_event(s, e).action == a,
{
}

/// What the shell asks of a table that holds its entries is never refused for a token or a name
/// that is there already.
pub proof fn requests_respect_uniqueness(s: Session, now: Seq<char>)
    requires
        s.consistent(),
        request_of(s) is Some,
    ensures
        table_after(s.entries, request_of(s)->0, now) is Some,
{
}

proof fn lemma_filter_keeps(list: Seq<Entry>, p: spec_fn(Entry) -> bool)
    requires
        forall|i: int| 0 <= i < list.len() ==> p(#[trigger] list[i]),
    ensures
        list.filter(p) == list,
    decreases list.len(),
{
    reveal(Seq::filter);
    if list.len() > 0 {
        assert forall|i: int| 0 <= i < list.drop_last().len() implies p(
            #[trigger] list.drop_last()[i],
        ) by {
            assert(list.drop_last()[i] == list[i]);
        }
        lemma_filter_keeps(list.drop_last(), p);
        assert(p(list[list.len() - 1]));
        assert(list.drop_last().push(list.last()) =~= list);
    }
}

proof fn lemma_filter_removes(list: Seq<Entry>, p: spec_fn(Entry) -> bool, k: int)
    requires
        0 <= k < list.len(),
        forall|i: int| 0 <= i < list.len() ==> p(#[trigger] list[i]) == (i != k),
    ensures
        list.filter(p) == list.remove(k),
    decreases list.len(),
{
    reveal(Seq::filter);
    let front = list.drop_last();
    assert(p(list[list.len() - 1]) == (list.len() - 1 != k));
    if k == list.len() - 1 {
        assert forall|i: int| 0 <= i < front.len() implies p(#[trigger] front[i]) by {
            assert(front[i] == list[i]);
        }
        lemma_filter_keeps(front, p);
        assert(list.remove(k) =~= front);
    } else {
        assert forall|i: int| 0 <= i < front.len() implies p(#[trigger] front[i]) == (i != k) by {
            assert(front[i] == list[i]);
        }
        lemma_filter_removes(front, p, k);
        assert(list.remove(k) =~= front.remove(k).push(list.last()));
    }
}

/// As long as the table does what it is asked, the shell's entries are its rows.
pub proof fn entries_follow_the_table(s: Session, now: Seq<char>)
    requires
        s.consistent(),
        request_of(s) is Some,
    ensures
        table_after(s.entries, request_of(s)->0, now) == Some(entries_after_success(s, now)),
{
    let after = entries_after_success(s, now);
    let rows = table_after(s.entries, request_of(s)->0, now)->0;
    requests_respect_uniqueness(s, now);
    match s.pending {
        Pending::AliasSaved { token, alias } => {
            lemma_find_where_is(s.entries, with_token(token));
            assert(after =~= rows);
        },
        Pending::TokenInserted { token, alias } => {
            assert(after =~= rows);
        },
        Pending::Deleted { index } => {
            let token = s.entries[index as int].token;
            let p = |e: Entry| e.token != token;
            assert forall|i: int| 0 <= i < s.entries.len() implies p(#[trigger] s.entries[i]) == (i
                != index) by {}
            lemma_filter_removes(s.entries, p, index as int);
        },
        Pending::AliasChanged { index, alias } => {
            assert(after =~= rows);
        },
        _ => {},
    }
}

/// Migration keeps the rows that there are, leaves out no token, and keeps tokens and names
/// unique.
pub proof fn migration_adds_the_missing_tokens(
    table: Seq<Entry>,
    tokens: Seq<Seq<char>>,
    now: Seq<char>,
)
    ensures
        table.is_prefix_of(migrated(table, tokens, now)),
        forall|i: int|
            0 <= i < tokens.len() ==> has_token(migrated(table, tokens, now), #[trigger] tokens[i]),
        tokens_differ(table) ==> tokens_differ(migrated(table, tokens, now)),
        aliases_differ(table) ==> aliases_differ(migrated(table, tokens, now)),
    decreases tokens.len(),
{
    let after = migrated(table, tokens, now);
    if tokens.len() == 0 {
        assert(table.take(table.len() as int) =~= table);
    } else {
        let front = tokens.drop_last();
        let before = migrated(table, front, now);
        let token = tokens.last();
        migration_adds_the_missing_tokens(table, front, now);
        assert forall|i: int| 0 <= i < tokens.len() implies has_token(
            after,
            #[trigger] tokens[i],
        ) by {
            if i < front.len() {
                assert(has_token(before, front[i]));
                let k = choose|k: int|
                    0 <= k < before.len() && (#[trigger] before[k]).token == front[i];
                assert(after[k].token == tokens[i]);
            } else if !has_token(before, token) {
                assert(after[after.len() - 1].token == token);
            }
        }
        if !has_token(before, token) {
            assert(after.take(table.len() as int) =~= before.take(table.len() as int));
            assert forall|i: int, j: int|
                tokens_differ(table) && 0 <= i < j < after.len() implies (
            #[trigger] after[i]).token != (#[trigger] after[j]).token by {
                assert(after[i] == before[i]);
            }
            assert forall|i: int, j: int|
                aliases_differ(table) && 0 <= i < j < after.len() && (
                #[trigger] after[i]).alias is Some implies after[i].alias != (
            #[trigger] after[j]).alias by {
                assert(after[i] == before[i]);
            }
        }
    }
}

proof fn lemma_filter_is_part(list: Seq<Seq<char>>, p: spec_fn(Seq<char>) -> bool)
    ensures
        forall|k: int|
            0 <= k < list.filter(p).len() ==> list.contains(#[trigger] list.filter(p)[k]) && p(
                list.filter(p)[k],
            ),
    decreases list.len(),
{
    reveal(Seq::filter);
    if list.len() > 0 {
        let front = list.drop_last();
        let all = list.filter(p);
        lemma_filter_is_part(front, p);
        assert forall|k: int| 0 <= k < all.len() implies list.contains(#[trigger] all[k]) && p(
            all[k],
        ) by {
            if k < front.filter(p).len() {
                assert(front.contains(front.filter(p)[k]));
                let i = choose|i: int| 0 <= i < front.len() && front[i] == all[k];
                assert(list[i] == all[k]);
            } else {
                assert(list[list.len() - 1] == all[k]);
            }
        }
    }
}

/// Migration adds one row without a name for each token that the table lacks, in the order of the
/// file, behind the rows that there are, and nothing else.
pub proof fn migration_appends_the_missing_tokens(
    table: Seq<Entry>,
    tokens: Seq<Seq<char>>,
    now: Seq<char>,
)
    requires
        tokens.no_duplicates(),
    ensures
        migrated(table, tokens, now) == table + rows_for(tokens.filter(missing_from(table)), now),
    decreases tokens.len(),
{
    reveal(Seq::filter);
    let p = missing_from(table);
    if tokens.len() == 0 {
        assert(table + rows_for(tokens.filter(p), now) =~= table);
    } else {
        let front = tokens.drop_last();
        let last = tokens.last();
        let kept = front.filter(p);
        let before = migrated(table, front, now);
        assert(front.no_duplicates()) by {
            assert forall|i: int, j: int| 0 <= i < front.len() && 0 <= j < front.len() && i != j
                implies front[i] != front[j] by {
                assert(front[i] == tokens[i] && front[j] == tokens[j]);
            }
        }
        migration_appends_the_missing_tokens(table, front, now);
        lemma_filter_is_part(front, p);
        assert(has_token(before, last) == has_token(table, last)) by {
            if has_token(table, last) {
                let i = choose|i: int| 0 <= i < table.len() && (#[trigger] table[i]).token == last;
                assert(before[i].token == last);
            }
            if has_token(before, last) && !has_token(table, last) {
                let i = choose|i: int| 0 <= i < before.len() && (#[trigger] before[i]).token == last;
                if i < table.len() {
                    assert(table[i].token == last);
                } else {
                    assert(before[i] == rows_for(kept, now)[i - table.len()]);
                    assert(kept[i - table.len()] == last);
                    assert(front.contains(last));
                    let k = choose|k: int| 0 <= k < front.len() && front[k] == last;
                    assert(tokens[k] == tokens[tokens.len() - 1]);
                }
            }
        }
        if p(last) {
            assert(rows_for(kept.push(last), now) =~= rows_for(kept, now).push(
                Entry { token: last, alias: None, created_at: now },
            ));
            assert(table + rows_for(kept.push(last), now) =~= (table + rows_for(kept, now)).push(
                Entry { token: last, alias: None, created_at: now },
            ));
        }
    }
}

/// The same of a token file, whatever it holds.
pub proof fn token_files_are_appended(table: Seq<Entry>, bytes: Seq<u8>, now: Seq<char>)
    ensures
        migrated(table, tokens_in(bytes), now) == table + rows_for(
            tokens_in(bytes).filter(missing_from(table)),
            now,
        ),
{
    distinct_lines_are_kept_in_order(readable_lines(raw_lines(bytes)));
    migration_appends_the_missing_tokens(table, tokens_in(bytes), now);
}

proof fn lemma_known_tokens_stay_out(table: Seq<Entry>, tokens: Seq<Seq<char>>, now: Seq<char>)
    requires
        forall|i: int| 0 <= i < tokens.len() ==> has_token(table, #[trigger] tokens[i]),
    ensures
        migrated(table, tokens, now) == table,
    decreases tokens.len(),
{
    if tokens.len() > 0 {
        let front = tokens.drop_last();
        assert forall|i: int| 0 <= i < front.len() implies has_token(table, #[trigger] front[i]) by {
            assert(front[i] == tokens[i]);
        }
        lemma_known_tokens_stay_out(table, front, now);
        assert(has_token(table, tokens[tokens.len() - 1]));
    }
}

/// To migrate again what was migrated changes nothing.
pub proof fn migrating_twice_changes_nothing(
    table: Seq<Entry>,
    tokens: Seq<Seq<char>>,
    now: Seq<char>,
    later: Seq<char>,
)
    ensures
        migrated(migrated(table, tokens, now), tokens, later) == migrated(table, tokens, now),
{
    migration_adds_the_missing_tokens(table, tokens, now);
    lemma_known_tokens_stay_out(migrated(table, tokens, now), tokens, later);
}

/// The state in which saving a token ends: `answer` is what the table says to the request, if there
/// is one, and `now` the time of a new row.
pub open spec fn after_saving(
    s: Session,
    token: Seq<char>,
    alias: Option<Seq<char>>,
    answer: Result<(), Seq<char>>,
    now: Seq<char>,
) -> Session {
    let asked = save_step(s, token, alias, seq![]).session;
    let answered = on_event(asked, Event::DbDone(answer)).session;
    if asked.pending is Idle {
        asked
    } else if answered.pending is Idle {
        answered
    } else {
        on_event(answered, Event::CreatedAt(Ok(now))).session
    }
}

/// The rows of the table when saving a token ends.
pub open spec fn table_after_saving(
    s: Session,
    token: Seq<char>,
    alias: Option<Seq<char>>,
    answer: Result<(), Seq<char>>,
    now: Seq<char>,
) -> Seq<Entry> {
    match (table_after(s.entries, save_step(s, token, alias, seq![]).action, now), answer) {
        (Some(rows), Ok(_)) => rows,
        _ => s.entries,
    }
}

/// Saving any token under any name, whether the table takes it or not, ends with the entries being
/// the rows of the table, with tokens and names unique, and with the known tokens being those of
/// the entries, as long as the time of a new row can be read back.
pub proof fn saving_keeps_entries_and_table_together(
    s: Session,
    token: Seq<char>,
    alias: Option<Seq<char>>,
    answer: Result<(), Seq<char>>,
    now: Seq<char>,
)
    requires
        s.settled(),
        answer is Ok ==> table_after(
            s.entries,
            save_step(s, token, alias, seq![]).action,
            now,
        ) is Some,
    ensures
        ({
            let after = after_saving(s, token, alias, answer, now);
            &&& after.pending is Idle
            &&& after.consistent()
            &&& after.entries == table_after_saving(s, token, alias, answer, now)
            &&& answer is Ok ==> has_token(after.entries, token)
            &&& answer is Err && !(save_step(s, token, alias, seq![]).action is Prompt)
                ==> after.entries == s.entries
        }),
{
    let after = after_saving(s, token, alias, answer, now);
    let rows = table_after_saving(s, token, alias, answer, now);
    lemma_find_where_is(s.entries, with_token(token));
    if answer is Ok {
        if has_token(s.entries, token) {
            if let Some(a) = alias {
                let i = find_where(s.entries, with_token(token));
                assert(s.entries[i].token == token);
                assert(after.entries =~= rows);
                assert(after.entries[i].token == token);
                lemma_same_tokens(s.entries, after.entries);
                assert forall|j: int, k: int|
                    0 <= j < k < after.entries.len() && (
                    #[trigger] after.entries[j]).alias is Some implies after.entries[j].alias != (
                #[trigger] after.entries[k]).alias by {
                    assert(j != i ==> after.entries[j] == s.entries[j] && s.entries[j].token
                        != token);
                    assert(k != i ==> after.entries[k] == s.entries[k] && s.entries[k].token
                        != token);
                }
            }
        } else {
            assert(after.entries =~= rows);
            assert(after.entries[after.entries.len() - 1].token == token);
            lemma_one_more_token(s.entries, Entry { token, alias, created_at: now });
        }
    }
}

} // verus!
