//! The shell: it takes commands and events, and answers with lines and actions.

use crate::args::{parse_list_args, parse_name_flag};
use crate::completion::ReplHelper;
use crate::content::{keys_of, parse_token};
use crate::number::write_number;
use crate::protocol::{lines_of, result_of, Action, Event, Line, NetFailure, Pending, Reply, Stream};
use crate::session::{
    after_time, alias_args, alias_changed_step, alias_exists_line, alias_is_free, alias_saved_step,
    alias_step, lemma_one_more_token, positions_are_those_of_entries, retrieve_step, token_set,
    aliases_differ, awaited, blocks_shown, can_list, can_show, can_stamp,
    commands_keep_entries_unique, created_at_step, delete_step, deleted_step, done, edit_step,
    edited_step, entry_line, err, error_line, events_keep_entries_unique, file_read_step,
    file_written_step, folded_aliases, get_step, help_lines, info_step, last_of, list_step,
    listing, not_found_line, on_event, on_line, out, passing, put_step, referenced,
    retrieved_step, retrieving_line, save_step, stamp, store_step, stored_step, storing_line, takes,
    token_inserted_step, tokens_differ, too_large_line, wait, Session, Step,
    LISTED_TOKEN_LEN, MAX_CONTENT_SIZE, MAX_FILE_SIZE,
};
use crate::text::{chars_of, contains, same, split_first, split_last, strip_prefix, text_of, trim};
use crate::timeout::{block_count, blocks, retrieve_timeout, store_timeout, DHT_TIMEOUT};
use crate::tokens::{
    copy_name, entries_of, has_alias, position_of_alias, position_of_token, resolve_token,
    truncate_token, Entry, TokenEntry,
};
use crate::unicode::{lossy_text, to_lowercase};
use vstd::hash_set::StringHashSet;
use vstd::prelude::*;
use vstd::string::*;
use vstd::utf8::*;

verus! {

/// The state of the shell.
pub struct ReplState {
    entries: Vec<TokenEntry>,
    token_set: StringHashSet,
    tokens_changed: bool,
    public_key_hex: String,
    pending: Pending,
}

impl View for ReplState {
    type V = Session;

    closed spec fn view(&self) -> Session {
        Session {
            entries: entries_of(self.entries@),
            known: self.token_set@,
            changed: self.tokens_changed,
            key: self.public_key_hex@,
            pending: self.pending@,
        }
    }
}

impl Reply {
    /// The reply prints the lines of the step and asks for its action.
    pub open spec fn tells(&self, step: Step) -> bool {
        lines_of(self.lines@) == step.lines && self.action@ == step.action
    }
}

// -- Lines ------------------------------------------------------------------------------------

pub(crate) fn out_line(text: String) -> (r: Line)
    ensures
        r@ == out(text@),
{
    Line { stream: Stream::Stdout, text }
}

pub(crate) fn err_line(text: String) -> (r: Line)
    ensures
        r@ == err(text@),
{
    Line { stream: Stream::Stderr, text }
}

fn no_lines() -> (r: Vec<Line>)
    ensures
        lines_of(r@) == Seq::<Line<Seq<char>>>::empty(),
{
    let r: Vec<Line> = Vec::new();
    assert(lines_of(r@) =~= Seq::<Line<Seq<char>>>::empty());
    r
}

fn one_line(line: Line) -> (r: Vec<Line>)
    ensures
        lines_of(r@) == seq![line@],
{
    let mut r: Vec<Line> = Vec::new();
    r.push(line);
    assert(lines_of(r@) =~= seq![line@]);
    r
}

fn two_lines(a: Line, b: Line) -> (r: Vec<Line>)
    ensures
        lines_of(r@) == seq![a@, b@],
{
    let mut r: Vec<Line> = Vec::new();
    r.push(a);
    r.push(b);
    assert(lines_of(r@) =~= seq![a@, b@]);
    r
}

/// `a` and `b` in one.
fn glue(a: &str, b: &str) -> (r: String)
    ensures
        r@ == a@ + b@,
{
    let mut r = a.to_owned();
    r.append(b);
    r
}

fn error(reason: &str) -> (r: Vec<Line>)
    ensures
        lines_of(r@) == seq![error_line(reason@)],
{
    one_line(err_line(glue("error: ", reason)))
}

fn alias_exists(alias: &str) -> (r: Vec<Line>)
    ensures
        lines_of(r@) == seq![alias_exists_line(alias@)],
{
    let mut t = glue("error: alias '", alias);
    t.append("' already exists");
    one_line(err_line(t))
}

fn too_large(what: &str, size: usize, max: usize) -> (r: Vec<Line>)
    ensures
        lines_of(r@) == seq![too_large_line(what@, size as nat, max as nat)],
{
    let mut t = glue("error: ", what);
    t.append(" too large (");
    t.append(write_number(size as u64).as_str());
    t.append(" bytes, max ");
    t.append(write_number(max as u64).as_str());
    t.append(")");
    one_line(err_line(t))
}

fn not_found(arg: &str) -> (r: Vec<Line>)
    ensures
        lines_of(r@) == seq![not_found_line(arg@)],
{
    one_line(err_line(glue("error: token not found: ", arg)))
}

fn shown_blocks(size: usize) -> (r: usize)
    ensures
        r == blocks_shown(size as nat),
{
    let n = block_count(size);
    if n == 0 {
        1
    } else {
        n
    }
}

fn storing(size: usize) -> (r: Vec<Line>)
    ensures
        lines_of(r@) == seq![storing_line(size as nat)],
{
    let n = shown_blocks(size);
    let mut t = glue("storing ", write_number(size as u64).as_str());
    t.append(" bytes (");
    t.append(write_number(n as u64).as_str());
    t.append(
        if n == 1 {
            " block"
        } else {
            " blocks"
        },
    );
    t.append(", timeout=");
    t.append(write_number(store_timeout(size)).as_str());
    t.append("s)...");
    one_line(err_line(t))
}

fn retrieving(chunks: usize) -> (r: Vec<Line>)
    ensures
        lines_of(r@) == seq![retrieving_line(chunks as nat)],
{
    let mut t = glue("retrieving ", write_number(chunks as u64).as_str());
    t.append(" chunks (timeout=");
    t.append(write_number(retrieve_timeout(chunks)).as_str());
    t.append("s)...");
    one_line(err_line(t))
}

fn timed(text: String, elapsed: &str, told: bool) -> (r: String)
    ensures
        r@ == after_time(text@, elapsed@, told),
{
    if told {
        let mut t = text;
        t.append(" (after ");
        t.append(elapsed);
        t.append("s)");
        t
    } else {
        text
    }
}

fn help() -> (r: Vec<Line>)
    ensures
        lines_of(r@) == help_lines(),
{
    let mut r: Vec<Line> = Vec::new();
    r.push(out_line("  put [--name <alias>] [--file <path> | <content>]".to_owned()));
    r.push(out_line("               Store content or file in the DHT".to_owned()));
    r.push(
        out_line("  get [--file <token|index|alias> <output>] | <token|index|alias>".to_owned()),
    );
    r.push(out_line("               Retrieve content by token, index, or alias".to_owned()));
    r.push(out_line("  edit [--name <alias>]".to_owned()));
    r.push(out_line("               Open $EDITOR to compose and store".to_owned()));
    r.push(out_line("  delete <token|index|alias>".to_owned()));
    r.push(out_line("               Remove a token from the local list".to_owned()));
    r.push(out_line("  alias <token|index> [name]".to_owned()));
    r.push(out_line("               Set or remove a token alias".to_owned()));
    r.push(out_line("  list [filter] [-n N]".to_owned()));
    r.push(out_line("               List known tokens (filter by alias, -n last N)".to_owned()));
    r.push(out_line("  info         Show node information".to_owned()));
    r.push(out_line("  help, ?      Show this help".to_owned()));
    r.push(out_line("  exit         Quit the REPL".to_owned()));
    assert(lines_of(r@) =~= help_lines());
    r
}

// -- Listing ----------------------------------------------------------------------------------

/// The views of a list of optional strings.
pub open spec fn options_of(list: Seq<Option<String>>) -> Seq<Option<Seq<char>>> {
    list.map_values(|s: Option<String>| text_of(s))
}

fn fold_aliases(entries: &Vec<TokenEntry>) -> (r: Vec<Option<String>>)
    ensures
        options_of(r@) == folded_aliases(entries_of(entries@)),
        r@.len() == entries@.len(),
{
    let mut r: Vec<Option<String>> = Vec::new();
    let mut i: usize = 0;
    while i < entries.len()
        invariant
            i <= entries@.len(),
            r@.len() == i,
            forall|j: int|
                0 <= j < i ==> text_of(#[trigger] r@[j]) == folded_aliases(
                    entries_of(entries@),
                )[j],
        decreases entries@.len() - i,
    {
        match &entries[i].alias {
            Some(a) => r.push(Some(to_lowercase(a.as_str()))),
            None => r.push(None),
        }
        i += 1;
    }
    assert(options_of(r@) =~= folded_aliases(entries_of(entries@)));
    r
}

/// The positions as mathematical integers.
pub open spec fn positions_of(list: Seq<usize>) -> Seq<int> {
    list.map_values(|i: usize| i as int)
}

fn find_passing(folded: &Vec<Option<String>>, filter: &Option<String>) -> (r: Vec<usize>)
    ensures
        positions_of(r@) == passing(options_of(folded@), text_of(*filter)),
        forall|j: int| 0 <= j < r@.len() ==> #[trigger] r@[j] < folded@.len(),
{
    let ghost all = options_of(folded@);
    let mut r: Vec<usize> = Vec::new();
    let mut i: usize = 0;
    while i < folded.len()
        invariant
            i <= folded@.len(),
            all == options_of(folded@),
            positions_of(r@) =~= passing(all.take(i as int), text_of(*filter)),
            forall|j: int| 0 <= j < r@.len() ==> #[trigger] r@[j] < i,
        decreases folded@.len() - i,
    {
        assert(all.take(i + 1).drop_last() =~= all.take(i as int));
        assert(all.take(i + 1).last() == text_of(folded@[i as int]));
        let ok = match filter {
            None => true,
            Some(f) => match &folded[i] {
                Some(a) => contains(a.as_str(), f.as_str()),
                None => false,
            },
        };
        if ok {
            let ghost before = r@;
            r.push(i);
            assert(positions_of(r@) =~= positions_of(before).push(i as int));
        }
        i += 1;
    }
    assert(all.take(i as int) =~= all);
    r
}

fn minute_stamp(created_at: &str) -> (r: String)
    requires
        can_stamp(created_at@),
    ensures
        r@ == stamp(created_at@),
{
    if created_at.as_bytes().len() >= 16 {
        let (head, _) = created_at.split_at(16);
        proof {
            encode_utf8_decode_utf8(head@);
            assert(head.spec_bytes() =~= encode_utf8(created_at@).take(16));
        }
        head.to_owned()
    } else {
        created_at.to_owned()
    }
}

fn show_entry(entries: &Vec<TokenEntry>, i: usize) -> (r: Line)
    requires
        i < entries@.len(),
        can_stamp(entries@[i as int].created_at@),
    ensures
        r@ == entry_line(entries_of(entries@), i as int),
{
    let e = &entries[i];
    assert(entries_of(entries@)[i as int] == e@);
    let count: usize = entries.len();
    assert(i < count);
    let number: u64 = i as u64 + 1;
    let mut t = glue("  ", write_number(number).as_str());
    t.append(": [");
    t.append(minute_stamp(e.created_at.as_str()).as_str());
    t.append("] ");
    match &e.alias {
        Some(a) => t.append(a.as_str()),
        None => t.append(truncate_token(e.token.as_str(), LISTED_TOKEN_LEN).as_str()),
    }
    out_line(t)
}

/// A limit as a mathematical number.
pub open spec fn limit_of(limit: Option<usize>) -> Option<nat> {
    match limit {
        Some(n) => Some(n as nat),
        None => None,
    }
}

/// The positions that a listing shows.
fn find_shown(folded: &Vec<Option<String>>, limit: Option<usize>, filter: &Option<String>) -> (r:
    Vec<usize>)
    ensures
        positions_of(r@) == last_of(
            passing(options_of(folded@), text_of(*filter)),
            limit_of(limit),
        ),
        forall|j: int| 0 <= j < r@.len() ==> #[trigger] r@[j] < folded@.len(),
{
    let mut found = find_passing(folded, filter);
    let ghost all = found@;
    match limit {
        Some(n) if n < found.len() => {
            let from: usize = found.len() - n;
            let r = found.split_off(from);
            assert(positions_of(r@) =~= positions_of(all).skip(from as int));
            r
        },
        _ => found,
    }
}

/// Whether the times of the entries that a listing shows can be cut.
fn is_showable(
    entries: &Vec<TokenEntry>,
    folded: &Vec<Option<String>>,
    limit: Option<usize>,
    filter: &Option<String>,
) -> (r: bool)
    requires
        folded@.len() == entries@.len(),
    ensures
        r == can_show(
            entries_of(entries@),
            options_of(folded@),
            limit_of(limit),
            text_of(*filter),
        ),
{
    let ghost list = entries_of(entries@);
    let shown = find_shown(folded, limit, filter);
    let ghost positions = positions_of(shown@);
    let mut k: usize = 0;
    while k < shown.len()
        invariant
            k <= shown@.len(),
            list == entries_of(entries@),
            positions == positions_of(shown@),
            positions == last_of(
                passing(options_of(folded@), text_of(*filter)),
                limit_of(limit),
            ),
            folded@.len() == entries@.len(),
            forall|j: int| 0 <= j < shown@.len() ==> #[trigger] shown@[j] < folded@.len(),
            forall|j: int| 0 <= j < k ==> can_stamp(list[#[trigger] positions[j]].created_at),
        decreases shown@.len() - k,
    {
        let t = entries[shown[k]].created_at.as_str();
        assert(list[positions[k as int]].created_at == t@);
        if t.as_bytes().len() >= 16 && !t.is_char_boundary(16) {
            return false;
        }
        k += 1;
    }
    true
}

/// The lines of a listing, given the folded names of the entries.
pub fn list_entries(
    entries: &Vec<TokenEntry>,
    folded: &Vec<Option<String>>,
    limit: Option<usize>,
    filter: &Option<String>,
) -> (r: Vec<Line>)
    requires
        folded@.len() == entries@.len(),
        can_show(entries_of(entries@), options_of(folded@), limit_of(limit), text_of(*filter)),
    ensures
        lines_of(r@) == listing(
            entries_of(entries@),
            options_of(folded@),
            limit_of(limit),
            text_of(*filter),
        ),
{
    let ghost list = entries_of(entries@);
    if entries.len() == 0 {
        return one_line(out_line("(no tokens stored)".to_owned()));
    }
    let shown = find_shown(folded, limit, filter);
    if shown.len() == 0 {
        return one_line(out_line("(no matches)".to_owned()));
    }
    let ghost positions = positions_of(shown@);
    let mut r: Vec<Line> = Vec::new();
    let mut k: usize = 0;
    while k < shown.len()
        invariant
            k <= shown@.len(),
            list == entries_of(entries@),
            positions == positions_of(shown@),
            folded@.len() == entries@.len(),
            forall|j: int| 0 <= j < shown@.len() ==> #[trigger] shown@[j] < folded@.len(),
            forall|j: int|
                0 <= j < shown@.len() ==> can_stamp(list[#[trigger] positions[j]].created_at),
            r@.len() == k,
            forall|j: int| 0 <= j < k ==> (#[trigger] r@[j])@ == entry_line(list, positions[j]),
        decreases shown@.len() - k,
    {
        let i: usize = shown[k];
        assert(list[i as int] == entries@[i as int]@);
        assert(positions[k as int] == i);
        r.push(show_entry(entries, i));
        k += 1;
    }
    assert(lines_of(r@) =~= positions.map_values(|i: int| entry_line(list, i)));
    r
}

// -- Commands ---------------------------------------------------------------------------------

/// The set of the tokens of a list of entries.
fn collect_set(entries: &Vec<TokenEntry>) -> (r: StringHashSet)
    ensures
        r@ == token_set(entries_of(entries@)),
{
    let ghost list = entries_of(entries@);
    let mut r = StringHashSet::new();
    let mut i: usize = 0;
    assert(r@ =~= token_set(list.take(0)));
    while i < entries.len()
        invariant
            i <= entries@.len(),
            list == entries_of(entries@),
            r@ == token_set(list.take(i as int)),
        decreases entries@.len() - i,
    {
        proof {
            lemma_one_more_token(list.take(i as int), list[i as int]);
            assert(list.take(i + 1) =~= list.take(i as int).push(list[i as int]));
        }
        r.insert(entries[i].token.as_str().to_owned());
        i += 1;
    }
    assert(list.take(i as int) =~= list);
    r
}

impl ReplState {
    /// A shell that knows `entries`.
    pub fn new(entries: Vec<TokenEntry>, public_key_hex: String) -> (r: ReplState)
        ensures
            r@ == (Session {
                entries: entries_of(entries@),
                known: token_set(entries_of(entries@)),
                changed: false,
                key: public_key_hex@,
                pending: Pending::Idle,
            }),
            r@.wf(),
            tokens_differ(entries_of(entries@)) && aliases_differ(entries_of(entries@))
                ==> r@.consistent(),
    {
        let token_set = collect_set(&entries);
        ReplState {
            entries,
            token_set,
            tokens_changed: false,
            public_key_hex,
            pending: Pending::Idle,
        }
    }

    /// The entries, in the order of their numbers.
    pub fn entries(&self) -> (r: &Vec<TokenEntry>)
        ensures
            entries_of(r@) == self@.entries,
    {
        &self.entries
    }

    fn finish(&mut self, lines: Vec<Line>) -> (r: Reply)
        ensures
            final(self)@ == done(old(self)@, lines_of(lines@)).session,
            r.tells(done(old(self)@, lines_of(lines@))),
    {
        self.pending = Pending::Idle;
        Reply { lines, action: Action::Prompt }
    }

    fn wait_for(&mut self, pending: Pending, lines: Vec<Line>, action: Action) -> (r: Reply)
        ensures
            final(self)@ == wait(old(self)@, pending@, lines_of(lines@), action@).session,
            r.tells(wait(old(self)@, pending@, lines_of(lines@), action@)),
    {
        self.pending = pending;
        Reply { lines, action }
    }

    fn alias_taken(&self, alias: &Option<String>) -> (r: bool)
        ensures
            r == (alias is Some && has_alias(self@.entries, text_of(*alias)->0)),
    {
        match alias {
            Some(a) => position_of_alias(self.entries.as_slice(), a.as_str()) < self.entries.len(),
            None => false,
        }
    }

    fn begin_store(&mut self, alias: Option<String>, data: Vec<u8>, is_file: bool) -> (r: Reply)
        ensures
            final(self)@ == store_step(old(self)@, text_of(alias), data@, is_file).session,
            r.tells(store_step(old(self)@, text_of(alias), data@, is_file)),
    {
        if self.alias_taken(&alias) {
            if let Some(a) = &alias {
                return self.finish(alias_exists(a.as_str()));
            }
        }
        let size: usize = data.len();
        let timeout: u64 = store_timeout(size);
        let blocks: usize = shown_blocks(size);
        self.wait_for(
            Pending::Stored { alias, edited: false },
            storing(size),
            Action::Store { data, blocks, timeout, progress: is_file },
        )
    }

    fn put(&mut self, arg: &str) -> (r: Reply)
        ensures
            final(self)@ == put_step(old(self)@, arg@).session,
            r.tells(put_step(old(self)@, arg@)),
    {
        let (alias, content) = parse_name_flag(arg);
        match strip_prefix(content, "--file ") {
            Some(path) => {
                let path = trim(path);
                if path.is_empty() {
                    return self.finish(
                        one_line(out_line("usage: put [--name <alias>] --file <path>".to_owned())),
                    );
                }
                self.wait_for(
                    Pending::FileRead { alias },
                    no_lines(),
                    Action::ReadFile { path: path.to_owned() },
                )
            },
            None => {
                if content.is_empty() {
                    return self.finish(
                        one_line(
                            out_line(
                                "usage: put [--name <alias>] [--file <path> | <content>]".to_owned(),
                            ),
                        ),
                    );
                }
                let data = content.as_bytes_vec();
                if data.len() > MAX_CONTENT_SIZE {
                    return self.finish(too_large("content", data.len(), MAX_CONTENT_SIZE));
                }
                self.begin_store(alias, data, false)
            },
        }
    }

    fn file_read(&mut self, alias: Option<String>, result: Result<Vec<u8>, String>) -> (r: Reply)
        ensures
            final(self)@ == file_read_step(
                old(self)@,
                text_of(alias),
                Event::FileRead(result)@->FileRead_0,
            ).session,
            r.tells(
                file_read_step(old(self)@, text_of(alias), Event::FileRead(result)@->FileRead_0),
            ),
    {
        match result {
            Err(e) => self.finish(error(e.as_str())),
            Ok(data) => {
                if data.len() > MAX_FILE_SIZE {
                    return self.finish(too_large("file", data.len(), MAX_FILE_SIZE));
                }
                self.begin_store(alias, data, true)
            },
        }
    }

    /// Saves a token under a name, after printing some lines: a known token only gets the name.
    pub fn save_token(&mut self, token: String, alias: Option<String>, lines: Vec<Line>) -> (r: Reply)
        ensures
            final(self)@ == save_step(
                old(self)@,
                token@,
                text_of(alias),
                lines_of(lines@),
            ).session,
            r.tells(save_step(old(self)@, token@, text_of(alias), lines_of(lines@))),
            final(self)@.wf(),
            old(self)@.settled() && alias_is_free(old(self)@.entries, text_of(alias))
                ==> final(self)@.consistent(),
    {
        if self.token_set.contains(token.as_str()) {
            match alias {
                None => self.finish(lines),
                Some(a) => {
                    let action = Action::SetAlias {
                        token: token.as_str().to_owned(),
                        alias: Some(a.as_str().to_owned()),
                    };
                    self.wait_for(Pending::AliasSaved { token, alias: a }, lines, action)
                },
            }
        } else {
            let action = Action::InsertToken {
                token: token.as_str().to_owned(),
                alias: copy_name(&alias),
            };
            self.wait_for(Pending::TokenInserted { token, alias }, lines, action)
        }
    }

    fn stored(
        &mut self,
        alias: Option<String>,
        edited: bool,
        result: Result<String, NetFailure>,
        elapsed: String,
    ) -> (r: Reply)
        ensures
            final(self)@ == stored_step(
                old(self)@,
                text_of(alias),
                edited,
                result_of(result),
                elapsed@,
            ).session,
            r.tells(
                stored_step(
                    old(self)@,
                    text_of(alias),
                    edited,
                    result_of(result),
                    elapsed@,
                ),
            ),
    {
        match result {
            Ok(token) => {
                let shown = out_line(token.as_str().to_owned());
                let lines = if edited {
                    one_line(shown)
                } else {
                    let mut t = glue("store succeeded in ", elapsed.as_str());
                    t.append("s");
                    two_lines(err_line(t), shown)
                };
                self.save_token(token, alias, lines)
            },
            Err(NetFailure::Failed(e)) => {
                let t = timed(glue("error: ", e.as_str()), elapsed.as_str(), !edited);
                self.finish(one_line(err_line(t)))
            },
            Err(NetFailure::TimedOut) => {
                let t = timed("error: store timed out".to_owned(), elapsed.as_str(), !edited);
                self.finish(one_line(err_line(t)))
            },
        }
    }

    fn reference(&self, arg: &str) -> (r: String)
        ensures
            r@ == referenced(self@.entries, arg@),
    {
        match resolve_token(self.entries.as_slice(), arg) {
            Some((_, e)) => e.token.as_str().to_owned(),
            None => arg.to_owned(),
        }
    }

    fn get(&mut self, arg: &str) -> (r: Reply)
        ensures
            final(self)@ == get_step(old(self)@, arg@).session,
            r.tells(get_step(old(self)@, arg@)),
    {
        if arg.is_empty() {
            return self.finish(
                one_line(
                    out_line(
                        "usage: get [--file <token|index|alias> <output>] | <token|index|alias>".to_owned(),
                    ),
                ),
            );
        }
        match strip_prefix(arg, "--file ") {
            Some(rest) => match split_last(trim(rest), ' ') {
                None => self.finish(error("usage: get --file <token|index|alias> <output>")),
                Some((reference, path)) => {
                    let token = self.reference(reference);
                    self.retrieve(token, Some(path.to_owned()))
                },
            },
            None => {
                let token = self.reference(arg);
                self.retrieve(token, None)
            },
        }
    }

    fn retrieve(&mut self, token: String, output: Option<String>) -> (r: Reply)
        ensures
            final(self)@ == retrieve_step(old(self)@, token@, text_of(output)).session,
            r.tells(retrieve_step(old(self)@, token@, text_of(output))),
    {
        match parse_token(token.as_str()) {
            Err(e) => self.finish(error(glue("invalid token: ", e.as_str()).as_str())),
            Ok(keys) => {
                let chunks: usize = keys.len();
                assert(keys_of(keys@).len() == chunks);
                let progress = output.is_some();
                let lines = if progress {
                    retrieving(chunks)
                } else {
                    no_lines()
                };
                let action = Action::Retrieve {
                    token: token.as_str().to_owned(),
                    chunks,
                    timeout: retrieve_timeout(chunks),
                    progress,
                };
                self.wait_for(Pending::Retrieved { token, output }, lines, action)
            },
        }
    }

    /// Goes on with retrieved data; `shown` is the text that it is shown as.
    fn retrieved(
        &mut self,
        token: String,
        output: Option<String>,
        result: Result<Vec<u8>, NetFailure>,
        shown: String,
    ) -> (r: Reply)
        ensures
            final(self)@ == retrieved_step(
                old(self)@,
                token@,
                text_of(output),
                Event::Retrieved(result)@->Retrieved_0,
                shown@,
            ).session,
            r.tells(
                retrieved_step(
                    old(self)@,
                    token@,
                    text_of(output),
                    Event::Retrieved(result)@->Retrieved_0,
                    shown@,
                ),
            ),
    {
        match result {
            Ok(data) => match output {
                Some(path) => {
                    let size: usize = data.len();
                    let action = Action::WriteFile { path: path.as_str().to_owned(), data };
                    self.wait_for(Pending::FileWritten { token, path, size }, no_lines(), action)
                },
                None => self.save_token(token, None, one_line(out_line(shown))),
            },
            Err(NetFailure::Failed(e)) => self.finish(error(e.as_str())),
            Err(NetFailure::TimedOut) => self.finish(
                one_line(err_line("error: retrieve timed out".to_owned())),
            ),
        }
    }

    fn file_written(
        &mut self,
        token: String,
        path: String,
        size: usize,
        result: Result<(), String>,
    ) -> (r: Reply)
        ensures
            final(self)@ == file_written_step(
                old(self)@,
                token@,
                path@,
                size as nat,
                Event::FileWritten(result)@->FileWritten_0,
            ).session,
            r.tells(
                file_written_step(
                    old(self)@,
                    token@,
                    path@,
                    size as nat,
                    Event::FileWritten(result)@->FileWritten_0,
                ),
            ),
    {
        match result {
            Err(e) => self.finish(error(e.as_str())),
            Ok(_) => {
                let mut t = glue("wrote ", write_number(size as u64).as_str());
                t.append(" bytes to ");
                t.append(path.as_str());
                self.save_token(token, None, one_line(err_line(t)))
            },
        }
    }

    fn delete(&mut self, arg: &str) -> (r: Reply)
        ensures
            final(self)@ == delete_step(old(self)@, arg@).session,
            r.tells(delete_step(old(self)@, arg@)),
    {
        if arg.is_empty() {
            return self.finish(one_line(out_line("usage: delete <token|index|alias>".to_owned())));
        }
        match resolve_token(self.entries.as_slice(), arg) {
            None => self.finish(not_found(arg)),
            Some((index, e)) => {
                let token = e.token.as_str().to_owned();
                self.wait_for(
                    Pending::Deleted { index },
                    no_lines(),
                    Action::DeleteToken { token },
                )
            },
        }
    }

    fn alias(&mut self, arg: &str) -> (r: Reply)
        ensures
            final(self)@ == alias_step(old(self)@, arg@).session,
            r.tells(alias_step(old(self)@, arg@)),
    {
        if arg.is_empty() {
            return self.finish(one_line(out_line("usage: alias <token|index> [name]".to_owned())));
        }
        let (target, alias) = split_alias_args(arg);
        let (index, token) = match resolve_token(self.entries.as_slice(), target) {
            None => {
                return self.finish(not_found(target));
            },
            Some((index, e)) => (index, e.token.as_str().to_owned()),
        };
        if self.alias_taken(&alias) {
            if let Some(a) = &alias {
                return self.finish(alias_exists(a.as_str()));
            }
        }
        let action = Action::SetAlias { token, alias: copy_name(&alias) };
        self.wait_for(Pending::AliasChanged { index, alias }, no_lines(), action)
    }

    fn rename(&mut self, index: usize, alias: Option<String>)
        requires
            index < old(self)@.entries.len(),
        ensures
            final(self)@ == old(self)@.with_entries(
                old(self)@.entries.update(
                    index as int,
                    Entry { alias: text_of(alias), ..old(self)@.entries[index as int] },
                ),
                old(self)@.known,
            ),
    {
        let e = &self.entries[index];
        let changed = TokenEntry {
            token: e.token.as_str().to_owned(),
            alias,
            created_at: e.created_at.as_str().to_owned(),
        };
        self.entries.set(index, changed);
        self.tokens_changed = true;
        self.pending = Pending::Idle;
        assert(self@.entries =~= old(self)@.entries.update(
            index as int,
            Entry { alias: text_of(alias), ..old(self)@.entries[index as int] },
        ));
    }

    fn alias_saved(&mut self, token: String, alias: String, result: Result<(), String>) -> (r:
        Reply)
        ensures
            final(self)@ == alias_saved_step(
                old(self)@,
                token@,
                alias@,
                Event::DbDone(result)@->DbDone_0,
            ).session,
            r.tells(
                alias_saved_step(old(self)@, token@, alias@, Event::DbDone(result)@->DbDone_0),
            ),
    {
        match result {
            Err(e) => self.finish(
                one_line(err_line(glue("warning: failed to set alias: ", e.as_str()))),
            ),
            Ok(_) => {
                let index = position_of_token(self.entries.as_slice(), token.as_str());
                if index < self.entries.len() {
                    self.rename(index, Some(alias));
                } else {
                    self.tokens_changed = true;
                    self.pending = Pending::Idle;
                }
                Reply { lines: no_lines(), action: Action::Prompt }
            },
        }
    }

    fn alias_changed(&mut self, index: usize, alias: Option<String>, result: Result<(), String>)
        -> (r: Reply)
        requires
            index < old(self)@.entries.len(),
        ensures
            final(self)@ == alias_changed_step(
                old(self)@,
                index as int,
                text_of(alias),
                Event::DbDone(result)@->DbDone_0,
            ).session,
            r.tells(
                alias_changed_step(
                    old(self)@,
                    index as int,
                    text_of(alias),
                    Event::DbDone(result)@->DbDone_0,
                ),
            ),
    {
        match result {
            Err(e) => self.finish(error(e.as_str())),
            Ok(_) => {
                let line = match &alias {
                    Some(a) => out_line(glue("alias set: ", a.as_str())),
                    None => out_line("alias removed".to_owned()),
                };
                self.rename(index, alias);
                Reply { lines: one_line(line), action: Action::Prompt }
            },
        }
    }

    fn token_inserted(&mut self, token: String, alias: Option<String>, result: Result<(), String>)
        -> (r: Reply)
        ensures
            final(self)@ == token_inserted_step(
                old(self)@,
                token@,
                text_of(alias),
                Event::DbDone(result)@->DbDone_0,
            ).session,
            r.tells(
                token_inserted_step(
                    old(self)@,
                    token@,
                    text_of(alias),
                    Event::DbDone(result)@->DbDone_0,
                ),
            ),
    {
        match result {
            Err(e) => self.finish(
                one_line(err_line(glue("warning: failed to save token: ", e.as_str()))),
            ),
            Ok(_) => {
                let action = Action::ReadCreatedAt { token: token.as_str().to_owned() };
                self.wait_for(Pending::CreatedAtRead { token, alias }, no_lines(), action)
            },
        }
    }

    fn created_at_read(
        &mut self,
        token: String,
        alias: Option<String>,
        result: Result<String, String>,
    ) -> (r: Reply)
        ensures
            final(self)@ == created_at_step(
                old(self)@,
                token@,
                text_of(alias),
                Event::CreatedAt(result)@->CreatedAt_0,
            ).session,
            r.tells(
                created_at_step(
                    old(self)@,
                    token@,
                    text_of(alias),
                    Event::CreatedAt(result)@->CreatedAt_0,
                ),
            ),
    {
        match result {
            Err(e) => self.finish(
                one_line(
                    err_line(glue("warning: token saved but failed to read back: ", e.as_str())),
                ),
            ),
            Ok(created_at) => {
                self.token_set.insert(token.as_str().to_owned());
                self.entries.push(TokenEntry { token, alias, created_at });
                self.tokens_changed = true;
                self.pending = Pending::Idle;
                assert(self@.entries =~= old(self)@.entries.push(
                    Entry { token: token@, alias: text_of(alias), created_at: created_at@ },
                ));
                Reply { lines: no_lines(), action: Action::Prompt }
            },
        }
    }

    fn deleted(&mut self, index: usize, result: Result<(), String>) -> (r: Reply)
        requires
            index < old(self)@.entries.len(),
        ensures
            final(self)@ == deleted_step(
                old(self)@,
                index as int,
                Event::DbDone(result)@->DbDone_0,
            ).session,
            r.tells(deleted_step(old(self)@, index as int, Event::DbDone(result)@->DbDone_0)),
    {
        match result {
            Err(e) => self.finish(error(e.as_str())),
            Ok(_) => {
                let removed = self.entries.remove(index);
                self.token_set.remove(removed.token.as_str());
                self.tokens_changed = true;
                self.pending = Pending::Idle;
                assert(self@.entries =~= old(self)@.entries.remove(index as int));
                Reply { lines: one_line(out_line("deleted".to_owned())), action: Action::Prompt }
            },
        }
    }

    fn info(&mut self, node_id: String, local_addr: String, peers: usize) -> (r: Reply)
        ensures
            final(self)@ == info_step(old(self)@, node_id@, local_addr@, peers as nat).session,
            r.tells(info_step(old(self)@, node_id@, local_addr@, peers as nat)),
    {
        let mut lines: Vec<Line> = Vec::new();
        lines.push(out_line(glue("  node id    : ", node_id.as_str())));
        lines.push(out_line(glue("  public key : ", self.public_key_hex.as_str())));
        lines.push(out_line(glue("  listening  : ", local_addr.as_str())));
        lines.push(out_line(glue("  peers      : ", write_number(peers as u64).as_str())));
        let count: u64 = self.entries.len() as u64;
        lines.push(out_line(glue("  tokens     : ", write_number(count).as_str())));
        assert(lines_of(lines@) =~= info_step(self@, node_id@, local_addr@, peers as nat).lines);
        self.finish(lines)
    }

    fn list(&mut self, arg: &str) -> (r: Reply)
        requires
            can_list(old(self)@.entries, arg@),
        ensures
            final(self)@ == list_step(old(self)@, arg@).session,
            r.tells(list_step(old(self)@, arg@)),
    {
        let (limit, filter) = parse_list_args(arg);
        let folded = fold_aliases(&self.entries);
        let lines = list_entries(&self.entries, &folded, limit, &filter);
        self.finish(lines)
    }

    fn edit(&mut self, arg: &str) -> (r: Reply)
        ensures
            final(self)@ == edit_step(old(self)@, arg@).session,
            r.tells(edit_step(old(self)@, arg@)),
    {
        let (alias, _) = parse_name_flag(arg);
        if self.alias_taken(&alias) {
            if let Some(a) = &alias {
                return self.finish(alias_exists(a.as_str()));
            }
        }
        self.wait_for(Pending::Edited { alias }, no_lines(), Action::RunEditor)
    }

    fn edited(&mut self, alias: Option<String>, result: Result<String, String>) -> (r: Reply)
        ensures
            final(self)@ == edited_step(
                old(self)@,
                text_of(alias),
                Event::Edited(result)@->Edited_0,
            ).session,
            r.tells(edited_step(old(self)@, text_of(alias), Event::Edited(result)@->Edited_0)),
    {
        match result {
            Err(e) => self.finish(error(e.as_str())),
            Ok(content) => {
                if trim(content.as_str()).is_empty() {
                    return self.finish(
                        one_line(out_line("(empty content, nothing stored)".to_owned())),
                    );
                }
                let data = content.as_str().as_bytes_vec();
                if data.len() > MAX_CONTENT_SIZE {
                    return self.finish(too_large("content", data.len(), MAX_CONTENT_SIZE));
                }
                let blocks: usize = shown_blocks(data.len());
                self.wait_for(
                    Pending::Stored { alias, edited: true },
                    no_lines(),
                    Action::Store { data, blocks, timeout: DHT_TIMEOUT, progress: false },
                )
            },
        }
    }

    /// Carries out a command line as far as it goes without the outside.
    pub fn handle_command(&mut self, line: &str) -> (r: Reply)
        requires
            old(self)@.wf(),
            takes(old(self)@, line@),
        ensures
            final(self)@ == on_line(old(self)@, line@).session,
            final(self)@.wf(),
            old(self)@.consistent() ==> final(self)@.consistent(),
            r.tells(on_line(old(self)@, line@)),
    {
        let count: usize = self.entries.len();
        assert(count == self@.entries.len());
        proof {
            positions_are_those_of_entries(self@, line@, Event::DbDone(Ok(())));
            if self@.consistent() {
                commands_keep_entries_unique(self@, line@);
            }
        }
        let line = trim(line);
        if line.is_empty() {
            return self.finish(no_lines());
        }
        let (cmd, arg) = match split_first(line, ' ') {
            Some((c, a)) => (c, trim(a)),
            None => (line, ""),
        };
        if same(cmd, "put") {
            self.put(arg)
        } else if same(cmd, "get") {
            self.get(arg)
        } else if same(cmd, "delete") {
            self.delete(arg)
        } else if same(cmd, "alias") {
            self.alias(arg)
        } else if same(cmd, "info") {
            self.wait_for(Pending::Info, no_lines(), Action::ReadInfo)
        } else if same(cmd, "list") {
            self.list(arg)
        } else if same(cmd, "edit") {
            self.edit(arg)
        } else if same(cmd, "help") || same(cmd, "?") {
            self.finish(help())
        } else if same(cmd, "exit") || same(cmd, "bye") {
            self.wait_for(Pending::Idle, no_lines(), Action::Quit)
        } else {
            let mut t = glue("unknown command: ", cmd);
            t.append(". try 'help' for a list of commands");
            self.finish(one_line(out_line(t)))
        }
    }

    /// Whether `line` can be taken as a command now: nothing is awaited, and what is to be listed
    /// can be shown.
    fn accepts(&self, line: &str) -> (r: bool)
        ensures
            r == takes(self@, line@),
    {
        let idle = match &self.pending {
            Pending::Idle => true,
            _ => false,
        };
        let line = trim(line);
        let (cmd, arg) = match split_first(line, ' ') {
            Some((c, a)) => (c, trim(a)),
            None => (line, ""),
        };
        if idle && same(cmd, "list") {
            let (limit, filter) = parse_list_args(arg);
            let folded = fold_aliases(&self.entries);
            is_showable(&self.entries, &folded, limit, &filter)
        } else {
            idle
        }
    }

    /// Carries out a command line if it can be taken as a command now; `None` leaves everything
    /// as it is.
    pub fn try_command(&mut self, line: &str) -> (r: Option<Reply>)
        requires
            old(self)@.wf(),
        ensures
            final(self)@.wf(),
            old(self)@.consistent() ==> final(self)@.consistent(),
            match r {
                Some(reply) => {
                    &&& takes(old(self)@, line@)
                    &&& final(self)@ == on_line(old(self)@, line@).session
                    &&& reply.tells(on_line(old(self)@, line@))
                },
                None => !takes(old(self)@, line@) && final(self)@ == old(self)@,
            },
    {
        if self.accepts(line) {
            Some(self.handle_command(line))
        } else {
            None
        }
    }

    /// Whether the current command is waiting for `event`.
    pub fn awaits(&self, event: &Event) -> (r: bool)
        ensures
            r == awaited(self@.pending, event@),
    {
        match (&self.pending, event) {
            (Pending::FileRead { .. }, Event::FileRead(_)) => true,
            (Pending::Stored { .. }, Event::Stored { .. }) => true,
            (Pending::Retrieved { .. }, Event::Retrieved(_)) => true,
            (Pending::FileWritten { .. }, Event::FileWritten(_)) => true,
            (Pending::Edited { .. }, Event::Edited(_)) => true,
            (Pending::Info, Event::Info { .. }) => true,
            (Pending::CreatedAtRead { .. }, Event::CreatedAt(_)) => true,
            (Pending::AliasSaved { .. }, Event::DbDone(_)) => true,
            (Pending::TokenInserted { .. }, Event::DbDone(_)) => true,
            (Pending::Deleted { .. }, Event::DbDone(_)) => true,
            (Pending::AliasChanged { .. }, Event::DbDone(_)) => true,
            _ => false,
        }
    }

    /// Carries the current command on with what came of its action.
    pub fn resume(&mut self, event: Event) -> (r: Reply)
        requires
            old(self)@.wf(),
            awaited(old(self)@.pending, event@),
        ensures
            final(self)@ == on_event(old(self)@, event@).session,
            final(self)@.wf(),
            old(self)@.consistent() ==> final(self)@.consistent(),
            r.tells(on_event(old(self)@, event@)),
    {
        proof {
            if self@.consistent() {
                events_keep_entries_unique(self@, event@);
            }
        }
        let mut pending = Pending::Idle;
        std::mem::swap(&mut pending, &mut self.pending);
        match (pending, event) {
            (Pending::FileRead { alias }, Event::FileRead(result)) => self.file_read(
                alias,
                result,
            ),
            (Pending::Stored { alias, edited }, Event::Stored { result, elapsed }) => self.stored(
                alias,
                edited,
                result,
                elapsed,
            ),
            (Pending::Retrieved { token, output }, Event::Retrieved(result)) => {
                let shown = match (&output, &result) {
                    (None, Ok(data)) => lossy_text(data.as_slice()),
                    _ => String::new(),
                };
                self.retrieved(token, output, result, shown)
            },
            (Pending::FileWritten { token, path, size }, Event::FileWritten(result)) =>
                self.file_written(token, path, size, result),
            (Pending::Edited { alias }, Event::Edited(result)) => self.edited(alias, result),
            (Pending::Info, Event::Info { node_id, local_addr, peers }) => self.info(
                node_id,
                local_addr,
                peers,
            ),
            (Pending::AliasSaved { token, alias }, Event::DbDone(result)) => self.alias_saved(
                token,
                alias,
                result,
            ),
            (Pending::TokenInserted { token, alias }, Event::DbDone(result)) =>
                self.token_inserted(token, alias, result),
            (Pending::CreatedAtRead { token, alias }, Event::CreatedAt(result)) =>
                self.created_at_read(token, alias, result),
            (Pending::Deleted { index }, Event::DbDone(result)) => self.deleted(index, result),
            (Pending::AliasChanged { index, alias }, Event::DbDone(result)) => self.alias_changed(
                index,
                alias,
                result,
            ),
            _ => self.finish(no_lines()),
        }
    }

    /// Hands the entries over to completion if they have changed since it took them last.
    pub fn sync(&mut self, helper: &mut ReplHelper)
        requires
            !old(self)@.changed ==> old(helper).reflects(old(self)@.entries),
        ensures
            final(helper).reflects(final(self)@.entries),
            final(self)@ == (Session { changed: false, ..old(self)@ }),
    {
        if self.tokens_changed {
            helper.sync(self.entries.as_slice());
            self.tokens_changed = false;
        }
    }
}

/// The reference and the new name in the argument of an alias command.
pub fn split_alias_args<'a>(arg: &'a str) -> (r: (&'a str, Option<String>))
    ensures
        (r.0@, text_of(r.1)) == alias_args(arg@),
{
    match split_first(arg, ' ') {
        None => (arg, None),
        Some((target, a)) => {
            let a = trim(a);
            let cs = chars_of(a);
            let n: usize = cs.len();
            let a = if n >= 2 && cs[0] == '"' && cs[n - 1] == '"' {
                a.substring_char(1, n - 1)
            } else {
                a
            };
            if a.is_empty() {
                (target, None)
            } else {
                (target, Some(a.to_owned()))
            }
        },
    }
}

} // verus!
