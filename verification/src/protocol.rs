//! What the shell prints, what it asks to be done outside, and what it is told in return.

use crate::text::text_of;
use vstd::prelude::*;

verus! {

/// Where a line is printed.
#[derive(Clone, Copy, Debug, PartialEq, Eq, Structural)]
pub enum Stream {
    Stdout,
    Stderr,
}

/// A line to print.
#[derive(Debug, PartialEq)]
pub struct Line<T = String> {
    pub stream: Stream,
    pub text: T,
}

/// What is to be done next.
#[derive(Debug, PartialEq)]
pub enum Action<T = String, B = Vec<u8>> {
    /// Read the next command.
    Prompt,
    /// Leave the shell.
    Quit,
    /// Read a file.
    ReadFile { path: T },
    /// Store data on the network within so many seconds, with or without a progress report on
    /// the blocks.
    Store { data: B, blocks: usize, timeout: u64, progress: bool },
    /// Retrieve the data behind a token within so many seconds, with or without a progress
    /// report.
    Retrieve { token: T, chunks: usize, timeout: u64, progress: bool },
    /// Write a file.
    WriteFile { path: T, data: B },
    /// Let the user compose a text in an editor.
    RunEditor,
    /// Ask the node about itself.
    ReadInfo,
    /// In the database, give a token a name or take its name away.
    SetAlias { token: T, alias: Option<T> },
    /// Add a token to the database.
    InsertToken { token: T, alias: Option<T> },
    /// Remove a token from the database.
    DeleteToken { token: T },
    /// Read from the database when a token was added.
    ReadCreatedAt { token: T },
}

/// Why the network did not answer as asked.
#[derive(Debug, PartialEq)]
pub enum NetFailure<T = String> {
    Failed(T),
    TimedOut,
}

/// What came of an action; a failure comes with its reason.
#[derive(Debug, PartialEq)]
pub enum Event<T = String, B = Vec<u8>> {
    FileRead(Result<B, T>),
    /// The token of the stored data, and the seconds that it took, with one decimal.
    Stored { result: Result<T, NetFailure<T>>, elapsed: T },
    Retrieved(Result<B, NetFailure<T>>),
    FileWritten(Result<(), T>),
    Edited(Result<T, T>),
    Info { node_id: T, local_addr: T, peers: usize },
    DbDone(Result<(), T>),
    CreatedAt(Result<T, T>),
}

/// What a command is waiting for.
pub enum Pending<T = String> {
    /// Nothing: the next command can come.
    Idle,
    /// The file to store.
    FileRead { alias: Option<T> },
    /// The token of stored data; it came from the editor or not.
    Stored { alias: Option<T>, edited: bool },
    /// The data behind the token.
    Retrieved { token: T, output: Option<T> },
    /// The output file.
    FileWritten { token: T, path: T, size: usize },
    /// The composed text.
    Edited { alias: Option<T> },
    /// What the node says of itself.
    Info,
    /// The new name of a token that was stored again.
    AliasSaved { token: T, alias: T },
    /// The new token.
    TokenInserted { token: T, alias: Option<T> },
    /// The time of the new token.
    CreatedAtRead { token: T, alias: Option<T> },
    /// The removal of an entry.
    Deleted { index: usize },
    /// The change of an entry's name.
    AliasChanged { index: usize, alias: Option<T> },
}

/// What the shell answers to a command or an event.
#[derive(Debug, PartialEq)]
pub struct Reply {
    pub lines: Vec<Line>,
    pub action: Action,
}

impl View for Line<String> {
    type V = Line<Seq<char>>;

    open spec fn view(&self) -> Line<Seq<char>> {
        Line { stream: self.stream, text: self.text@ }
    }
}

/// The views of a list of lines.
pub open spec fn lines_of(list: Seq<Line>) -> Seq<Line<Seq<char>>> {
    list.map_values(|l: Line| l@)
}

impl View for Action<String, Vec<u8>> {
    type V = Action<Seq<char>, Seq<u8>>;

    open spec fn view(&self) -> Action<Seq<char>, Seq<u8>> {
        match *self {
            Action::Prompt => Action::Prompt,
            Action::Quit => Action::Quit,
            Action::ReadFile { path } => Action::ReadFile { path: path@ },
            Action::Store { data, blocks, timeout, progress } => Action::Store {
                data: data@,
                blocks,
                timeout,
                progress,
            },
            Action::Retrieve { token, chunks, timeout, progress } => Action::Retrieve {
                token: token@,
                chunks,
                timeout,
                progress,
            },
            Action::WriteFile { path, data } => Action::WriteFile { path: path@, data: data@ },
            Action::RunEditor => Action::RunEditor,
            Action::ReadInfo => Action::ReadInfo,
            Action::SetAlias { token, alias } => Action::SetAlias {
                token: token@,
                alias: text_of(alias),
            },
            Action::InsertToken { token, alias } => Action::InsertToken {
                token: token@,
                alias: text_of(alias),
            },
            Action::DeleteToken { token } => Action::DeleteToken { token: token@ },
            Action::ReadCreatedAt { token } => Action::ReadCreatedAt { token: token@ },
        }
    }
}

impl View for NetFailure<String> {
    type V = NetFailure<Seq<char>>;

    open spec fn view(&self) -> NetFailure<Seq<char>> {
        match *self {
            NetFailure::Failed(e) => NetFailure::Failed(e@),
            NetFailure::TimedOut => NetFailure::TimedOut,
        }
    }
}

impl View for Event<String, Vec<u8>> {
    type V = Event<Seq<char>, Seq<u8>>;

    open spec fn view(&self) -> Event<Seq<char>, Seq<u8>> {
        match *self {
            Event::FileRead(Ok(data)) => Event::FileRead(Ok(data@)),
            Event::FileRead(Err(e)) => Event::FileRead(Err(e@)),
            Event::Stored { result: Ok(token), elapsed } => Event::Stored {
                result: Ok(token@),
                elapsed: elapsed@,
            },
            Event::Stored { result: Err(e), elapsed } => Event::Stored {
                result: Err(e@),
                elapsed: elapsed@,
            },
            Event::Retrieved(Ok(data)) => Event::Retrieved(Ok(data@)),
            Event::Retrieved(Err(e)) => Event::Retrieved(Err(e@)),
            Event::FileWritten(Ok(_)) => Event::FileWritten(Ok(())),
            Event::FileWritten(Err(e)) => Event::FileWritten(Err(e@)),
            Event::Edited(Ok(s)) => Event::Edited(Ok(s@)),
            Event::Edited(Err(e)) => Event::Edited(Err(e@)),
            Event::Info { node_id, local_addr, peers } => Event::Info {
                node_id: node_id@,
                local_addr: local_addr@,
                peers,
            },
            Event::DbDone(Ok(_)) => Event::DbDone(Ok(())),
            Event::DbDone(Err(e)) => Event::DbDone(Err(e@)),
            Event::CreatedAt(Ok(s)) => Event::CreatedAt(Ok(s@)),
            Event::CreatedAt(Err(e)) => Event::CreatedAt(Err(e@)),
        }
    }
}

impl View for Pending<String> {
    type V = Pending<Seq<char>>;

    open spec fn view(&self) -> Pending<Seq<char>> {
        match *self {
            Pending::Idle => Pending::Idle,
            Pending::FileRead { alias } => Pending::FileRead { alias: text_of(alias) },
            Pending::Stored { alias, edited } => Pending::Stored { alias: text_of(alias), edited },
            Pending::Retrieved { token, output } => Pending::Retrieved {
                token: token@,
                output: text_of(output),
            },
            Pending::FileWritten { token, path, size } => Pending::FileWritten {
                token: token@,
                path: path@,
                size,
            },
            Pending::Edited { alias } => Pending::Edited { alias: text_of(alias) },
            Pending::Info => Pending::Info,
            Pending::AliasSaved { token, alias } => Pending::AliasSaved {
                token: token@,
                alias: alias@,
            },
            Pending::TokenInserted { token, alias } => Pending::TokenInserted {
                token: token@,
                alias: text_of(alias),
            },
            Pending::CreatedAtRead { token, alias } => Pending::CreatedAtRead {
                token: token@,
                alias: text_of(alias),
            },
            Pending::Deleted { index } => Pending::Deleted { index },
            Pending::AliasChanged { index, alias } => Pending::AliasChanged {
                index,
                alias: text_of(alias),
            },
        }
    }
}

/// The view of a result, success or failure.
pub open spec fn result_of<A: View, E: View>(r: Result<A, E>) -> Result<A::V, E::V> {
    match r {
        Ok(a) => Ok(a@),
        Err(e) => Err(e@),
    }
}

} // verus!
