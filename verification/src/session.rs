//! The shell as a machine: what each command and each event does to the list of tokens, what is
//! printed, and what is asked for next.

use crate::args::{list_filter, list_limit, name_flag};
use crate::content::{
    keys_in, not_a_token, token_of, tokens_are_made_of_digits, tokens_hold_their_keys,
};
use crate::number::{decimal, number_up_to, written_numbers_read_back, NumberError};
use crate::protocol::{Action, Event, Line, NetFailure, Pending, Stream};
use crate::text::{
    after_prefix, contains_text, find_char, find_where, lemma_find_char_is, lemma_find_where,
    lemma_find_where_is, rsplit_once, split_once, trimmed,
};
use crate::timeout::{blocks, capped, DHT_TIMEOUT};
use crate::tokens::{
    has_alias, has_token, index_in, named, resolved, truncated, with_token, Entry,
};
use crate::unicode::{lowercase, shown_as, stored_text_is_shown_unchanged};
use vstd::prelude::*;
use vstd::utf8::*;

verus! {

/// Maximum size of content that is typed or composed (1 MiB).
pub const MAX_CONTENT_SIZE: usize = 1048576;

/// Maximum size of a file to store (64 MiB).
pub const MAX_FILE_SIZE: usize = 67108864;

/// Characters of a token that a listing shows.
pub const LISTED_TOKEN_LEN: usize = 40;

/// The state of the shell: its entries, the tokens that it takes for known, whether the entries
/// have changed since completion took them over, the node's public key, and what the current
/// command is waiting for.
#[verifier::ext_equal]
pub struct Session {
    pub entries: Seq<Entry>,
    pub known: Set<Seq<char>>,
    pub changed: bool,
    pub key: Seq<char>,
    pub pending: Pending<Seq<char>>,
}

/// What follows a command or an event: the new state, the lines to print, the next action.
#[verifier::ext_equal]
pub struct Step {
    pub session: Session,
    pub lines: Seq<Line<Seq<char>>>,
    pub action: Action<Seq<char>, Seq<u8>>,
}

/// No two entries have the same token.
pub open spec fn tokens_differ(list: Seq<Entry>) -> bool {
    forall|i: int, j: int|
        0 <= i < j < list.len() ==> (#[trigger] list[i]).token != (#[trigger] list[j]).token
}

/// No two entries have the same name.
pub open spec fn aliases_differ(list: Seq<Entry>) -> bool {
    forall|i: int, j: int|
        0 <= i < j < list.len() && (#[trigger] list[i]).alias is Some ==> list[i].alias != (
        #[trigger] list[j]).alias
}

/// The tokens of a list of entries.
pub open spec fn token_set(list: Seq<Entry>) -> Set<Seq<char>> {
    Set::new(|t: Seq<char>| has_token(list, t))
}

/// No entry has the name, if there is one.
pub open spec fn alias_is_free(list: Seq<Entry>, alias: Option<Seq<char>>) -> bool {
    alias matches Some(a) ==> !has_alias(list, a)
}

impl Session {
    /// The position that a command is working on is one of the entries.
    pub open spec fn wf(self) -> bool {
        match self.pending {
            Pending::Deleted { index } => index < self.entries.len(),
            Pending::AliasChanged { index, .. } => index < self.entries.len(),
            _ => true,
        }
    }

    /// No token and no name occurs twice, and the known tokens are those of the entries.
    pub open spec fn settled(self) -> bool {
        &&& tokens_differ(self.entries)
        &&& aliases_differ(self.entries)
        &&& self.known == token_set(self.entries)
    }

    /// The same, and what the command is waiting for will not change it.
    pub open spec fn consistent(self) -> bool {
        &&& self.wf()
        &&& self.settled()
        &&& match self.pending {
            Pending::Stored { alias, .. } => alias_is_free(self.entries, alias),
            Pending::Edited { alias } => alias_is_free(self.entries, alias),
            Pending::AliasSaved { token, alias } => has_token(self.entries, token) && !has_alias(
                self.entries,
                alias,
            ),
            Pending::TokenInserted { token, alias } => !has_token(self.entries, token)
                && alias_is_free(self.entries, alias),
            Pending::CreatedAtRead { token, alias } => !has_token(self.entries, token)
                && alias_is_free(self.entries, alias),
            Pending::AliasChanged { alias, .. } => alias_is_free(self.entries, alias),
            _ => true,
        }
    }

    /// The same state, waiting for something else.
    pub open spec fn waiting(self, pending: Pending<Seq<char>>) -> Session {
        Session { pending, ..self }
    }

    /// Other entries and other known tokens, and no command under way.
    pub open spec fn with_entries(self, entries: Seq<Entry>, known: Set<Seq<char>>) -> Session {
        Session { entries, known, changed: true, pending: Pending::Idle, ..self }
    }
}

// -- Lines ------------------------------------------------------------------------------------

pub open spec fn out(text: Seq<char>) -> Line<Seq<char>> {
    Line { stream: Stream::Stdout, text }
}

pub open spec fn err(text: Seq<char>) -> Line<Seq<char>> {
    Line { stream: Stream::Stderr, text }
}

pub open spec fn error_line(reason: Seq<char>) -> Line<Seq<char>> {
    err("error: "@ + reason)
}

pub open spec fn alias_exists_line(alias: Seq<char>) -> Line<Seq<char>> {
    err("error: alias '"@ + alias + "' already exists"@)
}

pub open spec fn too_large_line(what: Seq<char>, size: nat, max: nat) -> Line<Seq<char>> {
    err(
        "error: "@ + what + " too large ("@ + decimal(size) + " bytes, max "@ + decimal(max)
            + ")"@,
    )
}

pub open spec fn not_found_line(arg: Seq<char>) -> Line<Seq<char>> {
    err("error: token not found: "@ + arg)
}

/// The number of blocks that progress is counted in: at least one.
pub open spec fn blocks_shown(size: nat) -> nat {
    if blocks(size) == 0 {
        1
    } else {
        blocks(size)
    }
}

pub open spec fn storing_line(size: nat) -> Line<Seq<char>> {
    let n = blocks_shown(size);
    err(
        "storing "@ + decimal(size) + " bytes ("@ + decimal(n) + (if n == 1 {
            " block"@
        } else {
            " blocks"@
        }) + ", timeout="@ + decimal(capped(30 + 2 * blocks(size))) + "s)..."@,
    )
}

pub open spec fn retrieving_line(chunks: nat) -> Line<Seq<char>> {
    err(
        "retrieving "@ + decimal(chunks) + " chunks (timeout="@ + decimal(capped(30 + chunks))
            + "s)..."@,
    )
}

/// `text`, and how long it took where that is told.
pub open spec fn after_time(text: Seq<char>, elapsed: Seq<char>, told: bool) -> Seq<char> {
    if told {
        text + " (after "@ + elapsed + "s)"@
    } else {
        text
    }
}

pub open spec fn help_lines() -> Seq<Line<Seq<char>>> {
    seq![
        out("  put [--name <alias>] [--file <path> | <content>]"@),
        out("               Store content or file in the DHT"@),
        out("  get [--file <token|index|alias> <output>] | <token|index|alias>"@),
        out("               Retrieve content by token, index, or alias"@),
        out("  edit [--name <alias>]"@),
        out("               Open $EDITOR to compose and store"@),
        out("  delete <token|index|alias>"@),
        out("               Remove a token from the local list"@),
        out("  alias <token|index> [name]"@),
        out("               Set or remove a token alias"@),
        out("  list [filter] [-n N]"@),
        out("               List known tokens (filter by alias, -n last N)"@),
        out("  info         Show node information"@),
        out("  help, ?      Show this help"@),
        out("  exit         Quit the REPL"@),
    ]
}

// -- Steps ------------------------------------------------------------------------------------

/// The command is done.
pub open spec fn done(s: Session, lines: Seq<Line<Seq<char>>>) -> Step {
    Step { session: s.waiting(Pending::Idle), lines, action: Action::Prompt }
}

/// The command waits for what comes of an action.
pub open spec fn wait(
    s: Session,
    pending: Pending<Seq<char>>,
    lines: Seq<Line<Seq<char>>>,
    action: Action<Seq<char>, Seq<u8>>,
) -> Step {
    Step { session: s.waiting(pending), lines, action }
}

/// A line as its command and its argument.
pub open spec fn command_of(line: Seq<char>) -> (Seq<char>, Seq<char>) {
    match split_once(trimmed(line), ' ') {
        Some((c, a)) => (c, trimmed(a)),
        None => (trimmed(line), ""@),
    }
}

/// Data is to be stored under a name that must not be taken; a file with a progress report.
pub open spec fn store_step(
    s: Session,
    alias: Option<Seq<char>>,
    data: Seq<u8>,
    is_file: bool,
) -> Step {
    if alias is Some && has_alias(s.entries, alias->0) {
        done(s, seq![alias_exists_line(alias->0)])
    } else {
        wait(
            s,
            Pending::Stored { alias, edited: false },
            seq![storing_line(data.len())],
            Action::Store {
                data,
                blocks: blocks_shown(data.len()) as usize,
                timeout: capped(30 + 2 * blocks(data.len())) as u64,
                progress: is_file,
            },
        )
    }
}

pub open spec fn put_step(s: Session, arg: Seq<char>) -> Step {
    let (alias, content) = name_flag(arg);
    match after_prefix(content, "--file "@) {
        Some(path) => if trimmed(path).len() == 0 {
            done(s, seq![out("usage: put [--name <alias>] --file <path>"@)])
        } else {
            wait(
                s,
                Pending::FileRead { alias },
                seq![],
                Action::ReadFile { path: trimmed(path) },
            )
        },
        None => if content.len() == 0 {
            done(s, seq![out("usage: put [--name <alias>] [--file <path> | <content>]"@)])
        } else if encode_utf8(content).len() > MAX_CONTENT_SIZE {
            done(
                s,
                seq![
                    too_large_line(
                        "content"@,
                        encode_utf8(content).len(),
                        MAX_CONTENT_SIZE as nat,
                    ),
                ],
            )
        } else {
            store_step(s, alias, encode_utf8(content), false)
        },
    }
}

pub open spec fn file_read_step(
    s: Session,
    alias: Option<Seq<char>>,
    r: Result<Seq<u8>, Seq<char>>,
) -> Step {
    match r {
        Err(e) => done(s, seq![error_line(e)]),
        Ok(data) => if data.len() > MAX_FILE_SIZE {
            done(s, seq![too_large_line("file"@, data.len(), MAX_FILE_SIZE as nat)])
        } else {
            store_step(s, alias, data, true)
        },
    }
}

/// A token is to be saved under a name, after some lines: a known token only gets the name.
pub open spec fn save_step(
    s: Session,
    token: Seq<char>,
    alias: Option<Seq<char>>,
    lines: Seq<Line<Seq<char>>>,
) -> Step {
    if s.known.contains(token) {
        match alias {
            None => done(s, lines),
            Some(a) => wait(
                s,
                Pending::AliasSaved { token, alias: a },
                lines,
                Action::SetAlias { token, alias },
            ),
        }
    } else {
        wait(
            s,
            Pending::TokenInserted { token, alias },
            lines,
            Action::InsertToken { token, alias },
        )
    }
}

pub open spec fn stored_step(
    s: Session,
    alias: Option<Seq<char>>,
    edited: bool,
    r: Result<Seq<char>, NetFailure<Seq<char>>>,
    elapsed: Seq<char>,
) -> Step {
    match r {
        Ok(token) => save_step(
            s,
            token,
            alias,
            if edited {
                seq![out(token)]
            } else {
                seq![err("store succeeded in "@ + elapsed + "s"@), out(token)]
            },
        ),
        Err(NetFailure::Failed(e)) => done(
            s,
            seq![err(after_time("error: "@ + e, elapsed, !edited))],
        ),
        Err(NetFailure::TimedOut) => done(
            s,
            seq![err(after_time("error: store timed out"@, elapsed, !edited))],
        ),
    }
}

pub open spec fn alias_saved_step(
    s: Session,
    token: Seq<char>,
    alias: Seq<char>,
    r: Result<(), Seq<char>>,
) -> Step {
    match r {
        Err(e) => done(s, seq![err("warning: failed to set alias: "@ + e)]),
        Ok(_) => {
            let i = find_where(s.entries, with_token(token));
            Step {
                session: s.with_entries(
                    if i < s.entries.len() {
                        s.entries.update(i, Entry { alias: Some(alias), ..s.entries[i] })
                    } else {
                        s.entries
                    },
                    s.known,
                ),
                lines: seq![],
                action: Action::Prompt,
            }
        },
    }
}

pub open spec fn token_inserted_step(
    s: Session,
    token: Seq<char>,
    alias: Option<Seq<char>>,
    r: Result<(), Seq<char>>,
) -> Step {
    match r {
        Err(e) => done(s, seq![err("warning: failed to save token: "@ + e)]),
        Ok(_) => wait(
            s,
            Pending::CreatedAtRead { token, alias },
            seq![],
            Action::ReadCreatedAt { token },
        ),
    }
}

pub open spec fn created_at_step(
    s: Session,
    token: Seq<char>,
    alias: Option<Seq<char>>,
    r: Result<Seq<char>, Seq<char>>,
) -> Step {
    match r {
        Err(e) => done(
            s,
            seq![err("warning: token saved but failed to read back: "@ + e)],
        ),
        Ok(created_at) => Step {
            session: s.with_entries(
                s.entries.push(Entry { token, alias, created_at }),
                s.known.insert(token),
            ),
            lines: seq![],
            action: Action::Prompt,
        },
    }
}

/// The token that `arg` refers to; what refers to no entry is taken for a token.
pub open spec fn referenced(list: Seq<Entry>, arg: Seq<char>) -> Seq<char> {
    match resolved(list, arg) {
        Some(i) => list[i].token,
        None => arg,
    }
}

/// The data behind a token is to be retrieved, into a file or to be shown, if it is a token.
pub open spec fn retrieve_step(s: Session, token: Seq<char>, output: Option<Seq<char>>) -> Step {
    match keys_in(token) {
        None => done(s, seq![error_line("invalid token: "@ + not_a_token())]),
        Some(keys) => wait(
            s,
            Pending::Retrieved { token, output },
            if output is Some {
                seq![retrieving_line(keys.len())]
            } else {
                seq![]
            },
            Action::Retrieve {
                token,
                chunks: keys.len() as usize,
                timeout: capped(30 + keys.len()) as u64,
                progress: output is Some,
            },
        ),
    }
}

pub open spec fn get_step(s: Session, arg: Seq<char>) -> Step {
    if arg.len() == 0 {
        done(
            s,
            seq![
                out("usage: get [--file <token|index|alias> <output>] | <token|index|alias>"@),
            ],
        )
    } else {
        match after_prefix(arg, "--file "@) {
            Some(rest) => match rsplit_once(trimmed(rest), ' ') {
                None => done(
                    s,
                    seq![error_line("usage: get --file <token|index|alias> <output>"@)],
                ),
                Some((reference, path)) => retrieve_step(
                    s,
                    referenced(s.entries, reference),
                    Some(path),
                ),
            },
            None => retrieve_step(s, referenced(s.entries, arg), None),
        }
    }
}

/// `shown` is the text that retrieved data is shown as.
pub open spec fn retrieved_step(
    s: Session,
    token: Seq<char>,
    output: Option<Seq<char>>,
    r: Result<Seq<u8>, NetFailure<Seq<char>>>,
    shown: Seq<char>,
) -> Step {
    match r {
        Ok(data) => match output {
            Some(path) => wait(
                s,
                Pending::FileWritten { token, path, size: data.len() as usize },
                seq![],
                Action::WriteFile { path, data },
            ),
            None => save_step(s, token, None, seq![out(shown)]),
        },
        Err(NetFailure::Failed(e)) => done(s, seq![error_line(e)]),
        Err(NetFailure::TimedOut) => done(s, seq![err("error: retrieve timed out"@)]),
    }
}

pub open spec fn file_written_step(
    s: Session,
    token: Seq<char>,
    path: Seq<char>,
    size: nat,
    r: Result<(), Seq<char>>,
) -> Step {
    match r {
        Err(e) => done(s, seq![error_line(e)]),
        Ok(_) => save_step(
            s,
            token,
            None,
            seq![err("wrote "@ + decimal(size) + " bytes to "@ + path)],
        ),
    }
}

pub open spec fn delete_step(s: Session, arg: Seq<char>) -> Step {
    if arg.len() == 0 {
        done(s, seq![out("usage: delete <token|index|alias>"@)])
    } else {
        match resolved(s.entries, arg) {
            None => done(s, seq![not_found_line(arg)]),
            Some(i) => wait(
                s,
                Pending::Deleted { index: i as usize },
                seq![],
                Action::DeleteToken { token: s.entries[i].token },
            ),
        }
    }
}

pub open spec fn deleted_step(s: Session, index: int, r: Result<(), Seq<char>>) -> Step {
    match r {
        Err(e) => done(s, seq![error_line(e)]),
        Ok(_) => Step {
            session: s.with_entries(
                s.entries.remove(index),
                s.known.remove(s.entries[index].token),
            ),
            lines: seq![out("deleted"@)],
            action: Action::Prompt,
        },
    }
}

/// `a` without the quotation marks around it.
pub open spec fn unquoted(a: Seq<char>) -> Seq<char> {
    if a.len() >= 2 && a[0] == '"' && a.last() == '"' {
        a.subrange(1, a.len() - 1)
    } else {
        a
    }
}

/// The reference and the new name in the argument of an alias command.
pub open spec fn alias_args(arg: Seq<char>) -> (Seq<char>, Option<Seq<char>>) {
    match split_once(arg, ' ') {
        None => (arg, None),
        Some((target, a)) => {
            let a = unquoted(trimmed(a));
            (
                target,
                if a.len() == 0 {
                    None
                } else {
                    Some(a)
                },
            )
        },
    }
}

pub open spec fn alias_step(s: Session, arg: Seq<char>) -> Step {
    let (target, alias) = alias_args(arg);
    if arg.len() == 0 {
        done(s, seq![out("usage: alias <token|index> [name]"@)])
    } else {
        match resolved(s.entries, target) {
            None => done(s, seq![not_found_line(target)]),
            Some(i) => if alias is Some && has_alias(s.entries, alias->0) {
                done(s, seq![alias_exists_line(alias->0)])
            } else {
                wait(
                    s,
                    Pending::AliasChanged { index: i as usize, alias },
                    seq![],
                    Action::SetAlias { token: s.entries[i].token, alias },
                )
            },
        }
    }
}

pub open spec fn alias_changed_step(
    s: Session,
    index: int,
    alias: Option<Seq<char>>,
    r: Result<(), Seq<char>>,
) -> Step {
    match r {
        Err(e) => done(s, seq![error_line(e)]),
        Ok(_) => Step {
            session: s.with_entries(
                s.entries.update(index, Entry { alias, ..s.entries[index] }),
                s.known,
            ),
            lines: seq![
                match alias {
                    Some(a) => out("alias set: "@ + a),
                    None => out("alias removed"@),
                },
            ],
            action: Action::Prompt,
        },
    }
}

pub open spec fn info_step(
    s: Session,
    node_id: Seq<char>,
    local_addr: Seq<char>,
    peers: nat,
) -> Step {
    done(
        s,
        seq![
            out("  node id    : "@ + node_id),
            out("  public key : "@ + s.key),
            out("  listening  : "@ + local_addr),
            out("  peers      : "@ + decimal(peers)),
            out("  tokens     : "@ + decimal(s.entries.len())),
        ],
    )
}

pub open spec fn edit_step(s: Session, arg: Seq<char>) -> Step {
    let alias = name_flag(arg).0;
    if alias is Some && has_alias(s.entries, alias->0) {
        done(s, seq![alias_exists_line(alias->0)])
    } else {
        wait(s, Pending::Edited { alias }, seq![], Action::RunEditor)
    }
}

pub open spec fn edited_step(
    s: Session,
    alias: Option<Seq<char>>,
    r: Result<Seq<char>, Seq<char>>,
) -> Step {
    match r {
        Err(e) => done(s, seq![error_line(e)]),
        Ok(content) => if trimmed(content).len() == 0 {
            done(s, seq![out("(empty content, nothing stored)"@)])
        } else if encode_utf8(content).len() > MAX_CONTENT_SIZE {
            done(
                s,
                seq![
                    too_large_line(
                        "content"@,
                        encode_utf8(content).len(),
                        MAX_CONTENT_SIZE as nat,
                    ),
                ],
            )
        } else {
            wait(
                s,
                Pending::Stored { alias, edited: true },
                seq![],
                Action::Store {
                    data: encode_utf8(content),
                    blocks: blocks_shown(encode_utf8(content).len()) as usize,
                    timeout: DHT_TIMEOUT,
                    progress: false,
                },
            )
        },
    }
}

// -- Listing ----------------------------------------------------------------------------------

/// The folded names of the entries.
pub open spec fn folded_aliases(list: Seq<Entry>) -> Seq<Option<Seq<char>>> {
    list.map_values(
        |e: Entry|
            match e.alias {
                Some(a) => Some(lowercase(a)),
                None => None,
            },
    )
}

/// An entry with this folded name passes the filter.
pub open spec fn passes(folded: Option<Seq<char>>, filter: Option<Seq<char>>) -> bool {
    match filter {
        Some(f) => folded is Some && contains_text(folded->0, f),
        None => true,
    }
}

/// The positions whose folded names pass the filter.
pub open spec fn passing(folded: Seq<Option<Seq<char>>>, filter: Option<Seq<char>>) -> Seq<int>
    decreases folded.len(),
{
    if folded.len() == 0 {
        Seq::empty()
    } else {
        let before = passing(folded.drop_last(), filter);
        if passes(folded.last(), filter) {
            before.push(folded.len() - 1)
        } else {
            before
        }
    }
}

/// The last items of `list`, as many as the limit allows.
pub open spec fn last_of(list: Seq<int>, limit: Option<nat>) -> Seq<int> {
    match limit {
        Some(n) if n < list.len() => list.skip(list.len() - n),
        _ => list,
    }
}

/// The time of an entry to the minute: its first 16 bytes.
pub open spec fn stamp(created_at: Seq<char>) -> Seq<char> {
    let b = encode_utf8(created_at);
    if b.len() >= 16 {
        decode_utf8(b.take(16))
    } else {
        created_at
    }
}

/// A time that can be cut after 16 bytes, if it is that long.
pub open spec fn can_stamp(created_at: Seq<char>) -> bool {
    encode_utf8(created_at).len() >= 16 ==> is_char_boundary(encode_utf8(created_at), 16)
}

/// The line that shows the entry at a position, numbered from 1.
pub open spec fn entry_line(list: Seq<Entry>, i: int) -> Line<Seq<char>> {
    out(
        "  "@ + decimal((i + 1) as nat) + ": ["@ + stamp(list[i].created_at) + "] "@ + (
        match list[i].alias {
            Some(a) => a,
            None => truncated(list[i].token, LISTED_TOKEN_LEN as int),
        }),
    )
}

/// The times of the entries that a listing shows can be cut.
pub open spec fn can_show(
    list: Seq<Entry>,
    folded: Seq<Option<Seq<char>>>,
    limit: Option<nat>,
    filter: Option<Seq<char>>,
) -> bool {
    let shown = last_of(passing(folded, filter), limit);
    forall|k: int| 0 <= k < shown.len() ==> can_stamp(list[#[trigger] shown[k]].created_at)
}

/// The lines of a listing, given the folded names.
pub open spec fn listing(
    list: Seq<Entry>,
    folded: Seq<Option<Seq<char>>>,
    limit: Option<nat>,
    filter: Option<Seq<char>>,
) -> Seq<Line<Seq<char>>> {
    let shown = last_of(passing(folded, filter), limit);
    if list.len() == 0 {
        seq![out("(no tokens stored)"@)]
    } else if shown.len() == 0 {
        seq![out("(no matches)"@)]
    } else {
        shown.map_values(|i: int| entry_line(list, i))
    }
}

/// The filter of a list command in lower case.
pub open spec fn folded_filter(arg: Seq<char>) -> Option<Seq<char>> {
    match list_filter(arg) {
        Some(f) => Some(lowercase(f)),
        None => None,
    }
}

pub open spec fn list_step(s: Session, arg: Seq<char>) -> Step {
    done(
        s,
        listing(s.entries, folded_aliases(s.entries), list_limit(arg), folded_filter(arg)),
    )
}

/// What a list command shows can be shown.
pub open spec fn can_list(list: Seq<Entry>, arg: Seq<char>) -> bool {
    can_show(list, folded_aliases(list), list_limit(arg), folded_filter(arg))
}

// -- Dispatch ---------------------------------------------------------------------------------

/// A line can be taken as a command: nothing is awaited, and what is to be listed can be shown.
pub open spec fn takes(s: Session, line: Seq<char>) -> bool {
    let (cmd, arg) = command_of(line);
    s.pending is Idle && (cmd == "list"@ ==> can_list(s.entries, arg))
}

/// What a command line does.
pub open spec fn on_line(s: Session, line: Seq<char>) -> Step {
    let (cmd, arg) = command_of(line);
    if trimmed(line).len() == 0 {
        done(s, seq![])
    } else if cmd == "put"@ {
        put_step(s, arg)
    } else if cmd == "get"@ {
        get_step(s, arg)
    } else if cmd == "delete"@ {
        delete_step(s, arg)
    } else if cmd == "alias"@ {
        alias_step(s, arg)
    } else if cmd == "info"@ {
        wait(s, Pending::Info, seq![], Action::ReadInfo)
    } else if cmd == "list"@ {
        list_step(s, arg)
    } else if cmd == "edit"@ {
        edit_step(s, arg)
    } else if cmd == "help"@ || cmd == "?"@ {
        done(s, help_lines())
    } else if cmd == "exit"@ || cmd == "bye"@ {
        Step { session: s.waiting(Pending::Idle), lines: seq![], action: Action::Quit }
    } else {
        done(
            s,
            seq![out("unknown command: "@ + cmd + ". try 'help' for a list of commands"@)],
        )
    }
}

/// The event is what the command is waiting for.
pub open spec fn awaited(pending: Pending<Seq<char>>, e: Event<Seq<char>, Seq<u8>>) -> bool {
    match pending {
        Pending::Idle => false,
        Pending::FileRead { .. } => e is FileRead,
        Pending::Stored { .. } => e is Stored,
        Pending::Retrieved { .. } => e is Retrieved,
        Pending::FileWritten { .. } => e is FileWritten,
        Pending::Edited { .. } => e is Edited,
        Pending::Info => e is Info,
        Pending::CreatedAtRead { .. } => e is CreatedAt,
        Pending::AliasSaved { .. } => e is DbDone,
        Pending::TokenInserted { .. } => e is DbDone,
        Pending::Deleted { .. } => e is DbDone,
        Pending::AliasChanged { .. } => e is DbDone,
    }
}

/// What an awaited event does.
pub open spec fn on_event(s: Session, e: Event<Seq<char>, Seq<u8>>) -> Step {
    match (s.pending, e) {
        (Pending::FileRead { alias }, Event::FileRead(r)) => file_read_step(s, alias, r),
        (Pending::Stored { alias, edited }, Event::Stored { result, elapsed }) => stored_step(
            s,
            alias,
            edited,
            result,
            elapsed,
        ),
        (Pending::Retrieved { token, output }, Event::Retrieved(r)) => retrieved_step(
            s,
            token,
            output,
            r,
            if r is Ok {
                shown_as(r->Ok_0)
            } else {
                seq![]
            },
        ),
        (Pending::FileWritten { token, path, size }, Event::FileWritten(r)) => file_written_step(
            s,
            token,
            path,
            size as nat,
            r,
        ),
        (Pending::Edited { alias }, Event::Edited(r)) => edited_step(s, alias, r),
        (Pending::Info, Event::Info { node_id, local_addr, peers }) => info_step(
            s,
            node_id,
            local_addr,
            peers as nat,
        ),
        (Pending::AliasSaved { token, alias }, Event::DbDone(r)) => alias_saved_step(
            s,
            token,
            alias,
            r,
        ),
        (Pending::TokenInserted { token, alias }, Event::DbDone(r)) => token_inserted_step(
            s,
            token,
            alias,
            r,
        ),
        (Pending::CreatedAtRead { token, alias }, Event::CreatedAt(r)) => created_at_step(
            s,
            token,
            alias,
            r,
        ),
        (Pending::Deleted { index }, Event::DbDone(r)) => deleted_step(s, index as int, r),
        (Pending::AliasChanged { index, alias }, Event::DbDone(r)) => alias_changed_step(
            s,
            index as int,
            alias,
            r,
        ),
        _ => done(s, seq![]),
    }
}

// -- Laws -------------------------------------------------------------------------------------

/// What a reference resolves to is an entry.
pub proof fn references_resolve_to_entries(list: Seq<Entry>, arg: Seq<char>)
    ensures
        resolved(list, arg) matches Some(i) ==> 0 <= i < list.len(),
{
    lemma_find_where_is(list, named(arg));
    lemma_find_where_is(list, with_token(arg));
}

/// The position that a command works on is that of an entry.
pub proof fn positions_are_those_of_entries(
    s: Session,
    line: Seq<char>,
    e: Event<Seq<char>, Seq<u8>>,
)
    requires
        s.entries.len() <= usize::MAX,
    ensures
        on_line(s, line).session.wf(),
        awaited(s.pending, e) ==> on_event(s, e).session.wf(),
{
    let (cmd, arg) = command_of(line);
    references_resolve_to_entries(s.entries, arg);
    references_resolve_to_entries(s.entries, alias_args(arg).0);
}

/// Tokens and names stay unique, and the known tokens those of the entries, whatever is typed.
pub proof fn commands_keep_entries_unique(s: Session, line: Seq<char>)
    requires
        s.consistent(),
        s.pending is Idle,
        s.entries.len() <= usize::MAX,
    ensures
        on_line(s, line).session.consistent(),
{
    positions_are_those_of_entries(s, line, Event::DbDone(Ok(())));
}

/// Tokens and names stay unique, and the known tokens those of the entries, whatever comes of an
/// action.
pub proof fn events_keep_entries_unique(s: Session, e: Event<Seq<char>, Seq<u8>>)
    requires
        s.consistent(),
        awaited(s.pending, e),
    ensures
        on_event(s, e).session.consistent(),
{
    let t = on_event(s, e).session;
    match s.pending {
        Pending::AliasSaved { token, alias } => {
            lemma_find_where_is(s.entries, with_token(token));
            let i = find_where(s.entries, with_token(token));
            if e->DbDone_0 is Ok {
                lemma_same_tokens(s.entries, t.entries);
            }
        },
        Pending::AliasChanged { index, alias } => {
            if e->DbDone_0 is Ok {
                lemma_same_tokens(s.entries, t.entries);
            }
        },
        Pending::CreatedAtRead { token, alias } => {
            if let Event::CreatedAt(Ok(now)) = e {
                lemma_one_more_token(s.entries, Entry { token, alias, created_at: now });
            }
        },
        Pending::Deleted { index } => {
            if e->DbDone_0 is Ok {
                lemma_one_token_less(s.entries, index as int);
                assert forall|i: int, j: int| 0 <= i < j < t.entries.len() implies (
                #[trigger] t.entries[i]).token != (#[trigger] t.entries[j]).token && (
                t.entries[i].alias is Some ==> t.entries[i].alias != t.entries[j].alias) by {
                    let i0 = if i < index {
                        i
                    } else {
                        i + 1
                    };
                    let j0 = if j < index {
                        j
                    } else {
                        j + 1
                    };
                    assert(t.entries[i] == s.entries[i0]);
                    assert(t.entries[j] == s.entries[j0]);
                }
            }
        },
        _ => {},
    }
}

/// Lists with the same tokens in the same places have the same set of them.
pub(crate) proof fn lemma_same_tokens(a: Seq<Entry>, b: Seq<Entry>)
    requires
        a.len() == b.len(),
        forall|i: int| 0 <= i < a.len() ==> (#[trigger] a[i]).token == (#[trigger] b[i]).token,
    ensures
        token_set(a) == token_set(b),
{
    assert forall|t: Seq<char>| has_token(a, t) == has_token(b, t) by {
        if has_token(a, t) {
            let i = choose|i: int| 0 <= i < a.len() && (#[trigger] a[i]).token == t;
            assert(b[i].token == t);
        }
        if has_token(b, t) {
            let i = choose|i: int| 0 <= i < b.len() && (#[trigger] b[i]).token == t;
            assert(a[i].token == t);
        }
    }
    assert(token_set(a) =~= token_set(b));
}

/// One more entry brings its token.
pub(crate) proof fn lemma_one_more_token(list: Seq<Entry>, e: Entry)
    ensures
        token_set(list.push(e)) == token_set(list).insert(e.token),
{
    let more = list.push(e);
    assert forall|t: Seq<char>| has_token(more, t) == (has_token(list, t) || t == e.token) by {
        if has_token(list, t) {
            let i = choose|i: int| 0 <= i < list.len() && (#[trigger] list[i]).token == t;
            assert(more[i].token == t);
        }
        if t == e.token {
            assert(more[list.len() as int].token == t);
        }
        if has_token(more, t) && t != e.token {
            let i = choose|i: int| 0 <= i < more.len() && (#[trigger] more[i]).token == t;
            assert(list[i].token == t);
        }
    }
    assert(token_set(more) =~= token_set(list).insert(e.token));
}

proof fn lemma_one_token_less(list: Seq<Entry>, k: int)
    requires
        0 <= k < list.len(),
        tokens_differ(list),
    ensures
        token_set(list.remove(k)) == token_set(list).remove(list[k].token),
{
    let less = list.remove(k);
    assert forall|t: Seq<char>| has_token(less, t) == (has_token(list, t) && t != list[k].token) by {
        if has_token(less, t) {
            let i = choose|i: int| 0 <= i < less.len() && (#[trigger] less[i]).token == t;
            let j = if i < k {
                i
            } else {
                i + 1
            };
            assert(less[i] == list[j]);
            assert(list[j].token == t);
        }
        if has_token(list, t) && t != list[k].token {
            let i = choose|i: int| 0 <= i < list.len() && (#[trigger] list[i]).token == t;
            let j = if i < k {
                i
            } else {
                i - 1
            };
            assert(less[j] == list[i]);
        }
    }
    assert(token_set(less) =~= token_set(list).remove(list[k].token));
}

/// The event tells of a failure.
pub open spec fn is_failure(e: Event<Seq<char>, Seq<u8>>) -> bool {
    match e {
        Event::FileRead(r) => r is Err,
        Event::Stored { result, elapsed } => result is Err,
        Event::Retrieved(r) => r is Err,
        Event::FileWritten(r) => r is Err,
        Event::Edited(r) => r is Err,
        Event::Info { node_id, local_addr, peers } => false,
        Event::DbDone(r) => r is Err,
        Event::CreatedAt(r) => r is Err,
    }
}

/// A failure ends the command with one line, and changes nothing.
pub proof fn failures_change_nothing(s: Session, e: Event<Seq<char>, Seq<u8>>)
    requires
        awaited(s.pending, e),
        is_failure(e),
    ensures
        on_event(s, e).session == s.waiting(Pending::Idle),
        on_event(s, e).action is Prompt,
        on_event(s, e).lines.len() == 1,
{
}

/// Typing a command changes no entry: only what comes of its actions can.
pub proof fn commands_alone_change_no_entry(s: Session, line: Seq<char>)
    ensures
        on_line(s, line).session == s.waiting(on_line(s, line).session.pending),
{
}

/// The entries only change when the database has done something, and then completion learns of
/// it.
pub proof fn entries_change_with_the_database_alone(s: Session, e: Event<Seq<char>, Seq<u8>>)
    requires
        awaited(s.pending, e),
    ensures
        on_event(s, e).session.entries != s.entries ==> on_event(s, e).session.changed && (
        e is DbDone || e is CreatedAt),
        s.changed ==> on_event(s, e).session.changed,
        on_event(s, e).session.key == s.key,
{
}

/// A step that asks the network for something limits the time, to what its line says if it prints
/// one.
pub open spec fn limited(step: Step) -> bool {
    match step.action {
        Action::Store { data, timeout, .. } => {
            &&& 30 <= timeout <= 600
            &&& step.lines.len() > 0 ==> step.lines == seq![storing_line(data.len())] && timeout
                == capped(30 + 2 * blocks(data.len()))
        },
        Action::Retrieve { token, timeout, .. } => {
            &&& 30 <= timeout <= 600
            &&& keys_in(token) is Some && timeout == capped(30 + keys_in(token)->0.len())
        },
        _ => true,
    }
}

/// How many actions a command has before it at most.
pub open spec fn steps_left(pending: Pending<Seq<char>>) -> nat {
    match pending {
        Pending::Idle => 0,
        Pending::Info => 1,
        Pending::AliasSaved { token, alias } => 1,
        Pending::CreatedAtRead { token, alias } => 1,
        Pending::Deleted { index } => 1,
        Pending::AliasChanged { index, alias } => 1,
        Pending::TokenInserted { token, alias } => 2,
        Pending::Stored { alias, edited } => 3,
        Pending::FileWritten { token, path, size } => 3,
        Pending::FileRead { alias } => 4,
        Pending::Edited { alias } => 4,
        Pending::Retrieved { token, output } => 4,
    }
}

/// Every command ends: each event leaves fewer actions, and the shell prompts or quits just when
/// nothing is awaited.
pub proof fn every_command_ends(s: Session, line: Seq<char>, e: Event<Seq<char>, Seq<u8>>)
    ensures
        steps_left(on_line(s, line).session.pending) <= 4,
        on_line(s, line).session.pending is Idle <==> (on_line(s, line).action is Prompt || on_line(
            s,
            line,
        ).action is Quit),
        awaited(s.pending, e) ==> steps_left(on_event(s, e).session.pending) < steps_left(
            s.pending,
        ),
        awaited(s.pending, e) ==> (on_event(s, e).session.pending is Idle <==> on_event(
            s,
            e,
        ).action is Prompt),
{
}

/// Every time that the shell asks the network for something, it sets a limit of 30 to 600 seconds,
/// and what it says of the limit before a store is what it asks for.
pub proof fn the_network_gets_limited_time(
    s: Session,
    line: Seq<char>,
    e: Event<Seq<char>, Seq<u8>>,
)
    ensures
        limited(on_line(s, line)),
        awaited(s.pending, e) ==> limited(on_event(s, e)),
{
}

/// Nothing but `exit` and `bye` leaves the shell.
pub proof fn only_exit_and_bye_quit(s: Session, line: Seq<char>, e: Event<Seq<char>, Seq<u8>>)
    ensures
        on_line(s, line).action is Quit <==> (command_of(line).0 == "exit"@ || command_of(line).0
            == "bye"@),
        awaited(s.pending, e) ==> !(on_event(s, e).action is Quit),
{
    reveal_strlit("put");
    reveal_strlit("get");
    reveal_strlit("delete");
    reveal_strlit("alias");
    reveal_strlit("info");
    reveal_strlit("list");
    reveal_strlit("edit");
    reveal_strlit("help");
    reveal_strlit("?");
    reveal_strlit("exit");
    reveal_strlit("bye");
    let c = command_of(line).0;
    if c == "exit"@ || c == "bye"@ {
        lemma_find_char_is(trimmed(line), ' ');
        assert(c.len() > 0);
        if trimmed(line).len() == 0 {
            assert(split_once(trimmed(line), ' ') is None);
        }
        assert(c != "put"@ && c != "get"@ && c != "list"@ && c != "info"@ && c != "edit"@ && c
            != "help"@ && c != "?"@ && c != "delete"@ && c != "alias"@) by {
            assert("put"@[0] == 'p' && "get"@[0] == 'g' && "list"@[0] == 'l' && "info"@[0] == 'i');
            assert("help"@[0] == 'h' && "?"@[0] == '?' && "delete"@[0] == 'd' && "alias"@[0]
                == 'a');
            assert("edit"@[1] == 'd' && "exit"@[1] == 'x');
            assert("bye"@[0] == 'b' && "exit"@[0] == 'e');
        }
    }
}

/// Where a put has a content of its own to store, the bytes are those of the content, and they
/// are shown as that content when they come back.
pub proof fn what_is_put_is_what_get_shows(
    s: Session,
    line: Seq<char>,
    t: Session,
    token: Seq<char>,
)
    requires
        s.pending is Idle,
        command_of(line).0 == "put"@,
        on_line(s, line).action is Store,
        t.pending == (Pending::Retrieved { token, output: None::<Seq<char>> }),
    ensures
        ({
            let content = name_flag(command_of(line).1).1;
            let data = on_line(s, line).action->Store_data;
            &&& data == encode_utf8(content)
            &&& 0 < data.len() <= MAX_CONTENT_SIZE
            &&& on_event(t, Event::Retrieved(Ok(data))).lines == seq![out(content)]
        }),
{
    let content = name_flag(command_of(line).1).1;
    stored_text_is_shown_unchanged(content);
    let data = on_line(s, line).action->Store_data;
    assert(data == encode_utf8(content));
    if data.len() == 0 {
        assert(decode_utf8(data) =~= Seq::<char>::empty());
    }
}

/// What is composed in the editor is stored as it stands, and shown as it stands when it comes
/// back.
pub proof fn what_is_composed_is_what_get_shows(
    s: Session,
    content: Seq<char>,
    t: Session,
    token: Seq<char>,
)
    requires
        s.pending is Edited,
        on_event(s, Event::Edited(Ok(content))).action is Store,
        t.pending == (Pending::Retrieved { token, output: None::<Seq<char>> }),
    ensures
        ({
            let data = on_event(s, Event::Edited(Ok(content))).action->Store_data;
            &&& data == encode_utf8(content)
            &&& data.len() <= MAX_CONTENT_SIZE
            &&& on_event(t, Event::Retrieved(Ok(data))).lines == seq![out(content)]
        }),
{
    stored_text_is_shown_unchanged(content);
}

/// The bytes of a file are stored as they are, and written as they are when they come back.
pub proof fn files_pass_unchanged(
    s: Session,
    data: Seq<u8>,
    t: Session,
    token: Seq<char>,
    path: Seq<char>,
)
    requires
        s.pending is FileRead,
        on_event(s, Event::FileRead(Ok(data))).action is Store,
        t.pending == (Pending::Retrieved { token, output: Some(path) }),
    ensures
        on_event(s, Event::FileRead(Ok(data))).action->Store_data == data,
        data.len() <= MAX_FILE_SIZE,
        on_event(t, Event::Retrieved(Ok(data))).action == (Action::WriteFile::<
            Seq<char>,
            Seq<u8>,
        > { path, data }),
{
}

/// A put that succeeds leaves its token among the entries, under the name that was given: a new
/// token comes last, a known one stays in its place.
pub proof fn what_is_put_is_remembered(
    s: Session,
    line: Seq<char>,
    token: Seq<char>,
    elapsed: Seq<char>,
    created_at: Seq<char>,
)
    requires
        s.settled(),
        s.pending is Idle,
        command_of(line).0 == "put"@,
        on_line(s, line).action is Store,
    ensures
        ({
            let alias = name_flag(command_of(line).1).0;
            let stored = on_event(
                on_line(s, line).session,
                Event::Stored { result: Ok(token), elapsed },
            );
            let saved = on_event(stored.session, Event::DbDone(Ok(()))).session;
            let listed = on_event(saved, Event::CreatedAt(Ok(created_at))).session;
            &&& stored.lines.last() == out(token)
            &&& !has_token(s.entries, token) ==> {
                &&& listed.pending is Idle
                &&& listed.entries == s.entries.push(Entry { token, alias, created_at })
            }
            &&& has_token(s.entries, token) && alias is None ==> stored.session == s
            &&& has_token(s.entries, token) && alias is Some ==> {
                let i = find_where(s.entries, with_token(token));
                &&& saved.pending is Idle
                &&& 0 <= i < s.entries.len() && s.entries[i].token == token
                &&& saved.entries == s.entries.update(i, Entry { alias, ..s.entries[i] })
            }
        }),
{
    lemma_find_where_is(s.entries, with_token(token));
    let alias = name_flag(command_of(line).1).0;
    let stored = on_event(
        on_line(s, line).session,
        Event::Stored { result: Ok(token), elapsed },
    );
    if has_token(s.entries, token) && alias is None {
        assert(stored.session =~= s);
    }
}

/// The number under which an entry is listed refers to it.
pub proof fn numbers_refer_to_entries(list: Seq<Entry>, i: int)
    requires
        0 <= i < list.len(),
        list.len() <= usize::MAX,
    ensures
        resolved(list, decimal((i + 1) as nat)) == Some(i),
{
    written_numbers_read_back((i + 1) as nat, usize::MAX as nat);
}

/// The name of an entry refers to it, unless it reads as the number of an entry.
pub proof fn names_refer_to_entries(list: Seq<Entry>, i: int)
    requires
        0 <= i < list.len(),
        aliases_differ(list),
        list[i].alias is Some,
        index_in(list.len(), list[i].alias->0) is None,
    ensures
        resolved(list, list[i].alias->0) == Some(i),
{
    let a = list[i].alias->0;
    assert forall|j: int| 0 <= j < i implies !named(a)(#[trigger] list[j]) by {
        if list[j].alias == Some(a) {
            assert(list[j].alias is Some);
        }
    }
    lemma_find_where(list, named(a), i);
}

/// The token of an entry refers to it, unless it reads as the number of an entry or is a name.
pub proof fn tokens_refer_to_entries(list: Seq<Entry>, i: int)
    requires
        0 <= i < list.len(),
        tokens_differ(list),
        index_in(list.len(), list[i].token) is None,
        !has_alias(list, list[i].token),
    ensures
        resolved(list, list[i].token) == Some(i),
{
    let t = list[i].token;
    lemma_find_where_is(list, named(t));
    assert forall|j: int| 0 <= j < i implies !with_token(t)(#[trigger] list[j]) by {}
    lemma_find_where(list, with_token(t), i);
}

/// What is typed refers to an entry by its number, by its name or by its token, the first of these
/// that fits, and to nothing if none does.
pub proof fn references_go_by_number_name_or_token(list: Seq<Entry>, arg: Seq<char>)
    requires
        list.len() <= usize::MAX,
    ensures
        ({
            let numbered = number_up_to(arg, usize::MAX as nat) matches Ok(n) && 1 <= n
                <= list.len();
            match resolved(list, arg) {
                Some(i) => {
                    &&& 0 <= i < list.len()
                    &&& numbered ==> number_up_to(arg, usize::MAX as nat) == Ok::<
                        nat,
                        NumberError,
                    >((i + 1) as nat)
                    &&& !numbered && has_alias(list, arg) ==> list[i].alias == Some(arg)
                        && forall|j: int| 0 <= j < i ==> (#[trigger] list[j]).alias != Some(arg)
                    &&& !numbered && !has_alias(list, arg) ==> list[i].token == arg && forall|
                        j: int,
                    |
                        0 <= j < i ==> (#[trigger] list[j]).token != arg
                },
                None => !numbered && !has_alias(list, arg) && !has_token(list, arg),
            }
        }),
{
    lemma_find_where_is(list, named(arg));
    lemma_find_where_is(list, with_token(arg));
    if has_alias(list, arg) {
        let k = choose|k: int| 0 <= k < list.len() && (#[trigger] list[k]).alias == Some(arg);
        assert(named(arg)(list[k]));
    }
    if has_token(list, arg) {
        let k = choose|k: int| 0 <= k < list.len() && (#[trigger] list[k]).token == arg;
        assert(with_token(arg)(list[k]));
    }
    assert forall|j: int| 0 <= j < find_where(list, named(arg)) implies (
    #[trigger] list[j]).alias != Some(arg) by {
        assert(!named(arg)(list[j]));
    }
    assert forall|j: int| 0 <= j < find_where(list, with_token(arg)) implies (
    #[trigger] list[j]).token != arg by {
        assert(!with_token(arg)(list[j]));
    }
}

/// A token that has been saved is an entry from then on, with the name it was given, and the
/// entries before it stay as they are.
pub proof fn saved_tokens_are_listed_last(s: Session, created_at: Seq<char>)
    requires
        s.pending is CreatedAtRead,
    ensures
        ({
            let after = on_event(s, Event::CreatedAt(Ok(created_at))).session.entries;
            &&& s.entries.is_prefix_of(after)
            &&& after.len() == s.entries.len() + 1
            &&& s.pending matches Pending::CreatedAtRead { token, alias } ==> after.last() == (
            Entry { token, alias, created_at })
        }),
{
    let after = on_event(s, Event::CreatedAt(Ok(created_at))).session.entries;
    assert(after.take(s.entries.len() as int) =~= s.entries);
}

/// A token that is known already is not saved again, and without a new name nothing is asked.
pub proof fn known_tokens_are_not_saved_again(
    s: Session,
    token: Seq<char>,
    alias: Option<Seq<char>>,
    lines: Seq<Line<Seq<char>>>,
)
    requires
        s.known.contains(token),
    ensures
        !(save_step(s, token, alias, lines).action is InsertToken),
        alias is None ==> save_step(s, token, alias, lines).action is Prompt,
{
}

/// A deleted token is gone, and the other entries keep their order.
pub proof fn deleted_tokens_are_gone(s: Session, index: usize)
    requires
        s.consistent(),
        s.pending == (Pending::Deleted::<Seq<char>> { index }),
    ensures
        ({
            let after = on_event(s, Event::DbDone(Ok(()))).session.entries;
            &&& !has_token(after, s.entries[index as int].token)
            &&& after == s.entries.take(index as int) + s.entries.skip(index as int + 1)
        }),
{
    let after = on_event(s, Event::DbDone(Ok(()))).session.entries;
    assert(after =~= s.entries.take(index as int) + s.entries.skip(index as int + 1));
    assert forall|j: int| 0 <= j < after.len() implies (#[trigger] after[j]).token
        != s.entries[index as int].token by {
        if j < index {
            assert(after[j] == s.entries[j]);
        } else {
            assert(after[j] == s.entries[j + 1]);
        }
    }
}

/// Neither a put, an edit nor an alias command gives out a name that an entry has.
pub proof fn taken_names_are_refused(s: Session, line: Seq<char>, taken: Seq<char>)
    requires
        has_alias(s.entries, taken),
        ({
            let (cmd, arg) = command_of(line);
            ||| cmd == "put"@ && name_flag(arg).0 == Some(taken)
            ||| cmd == "edit"@ && name_flag(arg).0 == Some(taken)
            ||| cmd == "alias"@ && alias_args(arg).1 == Some(taken)
        }),
    ensures
        !(on_line(s, line).action is Store),
        !(on_line(s, line).action is RunEditor),
        !(on_line(s, line).action is SetAlias),
{
    reveal_strlit("put");
    reveal_strlit("edit");
    reveal_strlit("alias");
    reveal_strlit("get");
    reveal_strlit("delete");
    reveal_strlit("info");
    reveal_strlit("list");
    assert("put"@[0] == 'p' && "edit"@[0] == 'e' && "alias"@[0] == 'a');
}

/// A listing shows every entry that passes the filter, in the order of the entries.
pub proof fn listings_are_complete_and_ordered(
    folded: Seq<Option<Seq<char>>>,
    filter: Option<Seq<char>>,
)
    ensures
        forall|i: int| #[trigger]
            passing(folded, filter).contains(i) <==> 0 <= i < folded.len() && passes(
                folded[i],
                filter,
            ),
        forall|j: int, k: int|
            0 <= j < k < passing(folded, filter).len() ==> #[trigger] passing(folded, filter)[j]
                < #[trigger] passing(folded, filter)[k],
    decreases folded.len(),
{
    let all = passing(folded, filter);
    if folded.len() > 0 {
        let front = folded.drop_last();
        let before = passing(front, filter);
        let n = folded.len() - 1;
        listings_are_complete_and_ordered(front, filter);
        assert forall|j: int| 0 <= j < before.len() implies 0 <= #[trigger] before[j] < n by {
            assert(before.contains(before[j]));
        }
        assert forall|i: int| #[trigger] all.contains(i) <==> 0 <= i < folded.len() && passes(
            folded[i],
            filter,
        ) by {
            if before.contains(i) {
                let j = choose|j: int| 0 <= j < before.len() && before[j] == i;
                assert(all[j] == i);
                assert(front[i] == folded[i]);
            }
            if all.contains(i) && !before.contains(i) {
                let j = choose|j: int| 0 <= j < all.len() && all[j] == i;
                if j < before.len() {
                    assert(before[j] == i);
                }
                assert(i == n);
            }
            if 0 <= i < n && passes(folded[i], filter) {
                assert(front[i] == folded[i]);
                assert(before.contains(i));
            }
            if i == n && passes(folded[i], filter) {
                assert(all[all.len() - 1] == n);
            }
        }
    }
}

/// A limit shows the last entries that pass, and no more than it says.
pub proof fn limits_show_the_last_entries(list: Seq<int>, n: nat)
    ensures
        last_of(list, Some(n)).len() <= n,
        last_of(list, Some(n)).is_suffix_of(list),
        last_of(list, Some(n)).len() == n || last_of(list, Some(n)) == list,
        last_of(list, None) == list,
{
    if n < list.len() {
        assert(list.skip(list.len() - n) =~= list.subrange(
            list.len() - n,
            list.len() as int,
        ));
    } else {
        assert(list.subrange(0, list.len() as int) =~= list);
    }
}

/// A reference means the same entry to every command that takes one.
pub proof fn references_mean_the_same_to_all(s: Session, arg: Seq<char>, i: int)
    requires
        resolved(s.entries, arg) == Some(i),
        arg.len() > 0,
        after_prefix(arg, "--file "@) is None,
    ensures
        get_step(s, arg) == retrieve_step(s, s.entries[i].token, None),
        delete_step(s, arg).action == (Action::DeleteToken::<Seq<char>, Seq<u8>> {
            token: s.entries[i].token,
        }),
        find_char(arg, ' ') == arg.len() ==> alias_step(s, arg).action == (Action::SetAlias::<
            Seq<char>,
            Seq<u8>,
        > { token: s.entries[i].token, alias: None }),
{
}

/// To get what is a token asks for just its chunks; what is none is answered with one line, and
/// nothing changes.
pub proof fn tokens_are_retrieved_by_their_chunks(s: Session, arg: Seq<char>)
    requires
        arg.len() > 0,
        after_prefix(arg, "--file "@) is None,
    ensures
        ({
            let token = referenced(s.entries, arg);
            let step = get_step(s, arg);
            &&& step.action is Retrieve <==> keys_in(token) is Some
            &&& keys_in(token) matches Some(keys) ==> {
                &&& step.session == s.waiting(Pending::Retrieved { token, output: None })
                &&& step.action == (Action::Retrieve::<Seq<char>, Seq<u8>> {
                    token,
                    chunks: keys.len() as usize,
                    timeout: capped(30 + keys.len()) as u64,
                    progress: false,
                })
            }
            &&& keys_in(token) is None ==> step == done(
                s,
                seq![error_line("invalid token: "@ + not_a_token())],
            )
        }),
{
}

/// The same where what is got goes into a file, with a line that says how many chunks there are.
pub proof fn files_are_retrieved_by_their_chunks(
    s: Session,
    arg: Seq<char>,
    reference: Seq<char>,
    path: Seq<char>,
)
    requires
        arg.len() > 0,
        after_prefix(arg, "--file "@) matches Some(rest) && rsplit_once(trimmed(rest), ' ') == Some(
            (reference, path),
        ),
    ensures
        ({
            let token = referenced(s.entries, reference);
            let step = get_step(s, arg);
            &&& step.action is Retrieve <==> keys_in(token) is Some
            &&& keys_in(token) matches Some(keys) ==> {
                &&& step.session == s.waiting(Pending::Retrieved { token, output: Some(path) })
                &&& step.lines == seq![retrieving_line(keys.len())]
                &&& step.action == (Action::Retrieve::<Seq<char>, Seq<u8>> {
                    token,
                    chunks: keys.len() as usize,
                    timeout: capped(30 + keys.len()) as u64,
                    progress: true,
                })
            }
            &&& keys_in(token) is None ==> step == done(
                s,
                seq![error_line("invalid token: "@ + not_a_token())],
            )
        }),
{
}

/// The token of stored data can be got: the shell asks for as many chunks as there are keys in it.
pub proof fn tokens_of_stored_data_can_be_got(s: Session, keys: Seq<Seq<u8>>)
    requires
        0 < keys.len() <= usize::MAX,
        forall|i: int| 0 <= i < keys.len() ==> (#[trigger] keys[i]).len() == 32,
        referenced(s.entries, token_of(keys)) == token_of(keys),
    ensures
        get_step(s, token_of(keys)).action matches Action::Retrieve { token, chunks, .. }
            && token == token_of(keys) && chunks == keys.len(),
{
    let t = token_of(keys);
    tokens_hold_their_keys(keys);
    tokens_are_made_of_digits(keys);
    reveal_strlit("--file ");
    assert("--file "@[0] == '-');
    assert(t[0] != '-');
    if "--file "@.is_prefix_of(t) {
        assert(t.subrange(0, 7)[0] == t[0]);
    }
}

} // verus!
