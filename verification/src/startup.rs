//! What the shell says while the node starts and works, and what it does with what is typed.

use crate::number::{decimal, write_number};
use crate::protocol::{lines_of, Line};
use crate::session::{err, out};
use crate::shell::{err_line, out_line};
use crate::text::{contains_text, texts_are_found_anywhere};
use vstd::prelude::*;
use vstd::string::*;

verus! {

/// A step of the node's start.
pub enum SpawnStep<T = String> {
    LoadingIdentity,
    GeneratingPow,
    BindingTransport { addr: T },
    SpawningNode,
    ResolvingBootstrap { domain: T },
    ConnectingBootstrap { count: usize },
    StartingMdns,
}

/// How far storing or retrieving has come; blocks and chunks are numbered from 0.
pub enum TransferStep {
    Encoding { block: u32 },
    Distributing { block: u32 },
    BlockComplete { block: u32 },
    Fetching { chunk: u32 },
    ChunkComplete { chunk: u32 },
}

/// What a progress report shows next: a message, or the number of parts that are done.
#[derive(Debug, PartialEq)]
pub enum Progress<T = String> {
    Message(T),
    Position(u64),
}

/// What came of reading a line.
pub enum Input<T = String> {
    Typed(T),
    EndOfInput,
    Interrupted,
    Failed(T),
}

/// What follows: a command to run, another try, or the end of the shell.
#[derive(Debug, PartialEq)]
pub enum Next<T = String> {
    Run(T),
    Again,
    Leave,
}

impl View for SpawnStep<String> {
    type V = SpawnStep<Seq<char>>;

    open spec fn view(&self) -> SpawnStep<Seq<char>> {
        match *self {
            SpawnStep::LoadingIdentity => SpawnStep::LoadingIdentity,
            SpawnStep::GeneratingPow => SpawnStep::GeneratingPow,
            SpawnStep::BindingTransport { addr } => SpawnStep::BindingTransport { addr: addr@ },
            SpawnStep::SpawningNode => SpawnStep::SpawningNode,
            SpawnStep::ResolvingBootstrap { domain } => SpawnStep::ResolvingBootstrap {
                domain: domain@,
            },
            SpawnStep::ConnectingBootstrap { count } => SpawnStep::ConnectingBootstrap { count },
            SpawnStep::StartingMdns => SpawnStep::StartingMdns,
        }
    }
}

impl View for Progress<String> {
    type V = Progress<Seq<char>>;

    open spec fn view(&self) -> Progress<Seq<char>> {
        match *self {
            Progress::Message(t) => Progress::Message(t@),
            Progress::Position(n) => Progress::Position(n),
        }
    }
}

impl View for Input<String> {
    type V = Input<Seq<char>>;

    open spec fn view(&self) -> Input<Seq<char>> {
        match *self {
            Input::Typed(t) => Input::Typed(t@),
            Input::EndOfInput => Input::EndOfInput,
            Input::Interrupted => Input::Interrupted,
            Input::Failed(e) => Input::Failed(e@),
        }
    }
}

impl View for Next<String> {
    type V = Next<Seq<char>>;

    open spec fn view(&self) -> Next<Seq<char>> {
        match *self {
            Next::Run(t) => Next::Run(t@),
            Next::Again => Next::Again,
            Next::Leave => Next::Leave,
        }
    }
}

impl SpawnStep<Seq<char>> {
    /// The step in words.
    pub open spec fn words(self) -> Seq<char> {
        match self {
            SpawnStep::LoadingIdentity => "Loading identity..."@,
            SpawnStep::GeneratingPow => "Generating proof-of-work (first run)..."@,
            SpawnStep::BindingTransport { addr } => "Binding to "@ + addr + "..."@,
            SpawnStep::SpawningNode => "Spawning node..."@,
            SpawnStep::ResolvingBootstrap { domain } => "Resolving bootstrap ("@ + domain + ")..."@,
            SpawnStep::ConnectingBootstrap { count } => "Connecting to "@ + decimal(count as nat)
                + (if count == 1 {
                " bootstrap peer..."@
            } else {
                " bootstrap peers..."@
            }),
            SpawnStep::StartingMdns => "Starting mDNS discovery..."@,
        }
    }
}

/// `before`, `what` and `after` in one.
fn framed(before: &str, what: &str, after: &str) -> (r: String)
    ensures
        r@ == before@ + what@ + after@,
{
    let mut r = before.to_owned();
    r.append(what);
    r.append(after);
    r
}

impl SpawnStep<String> {
    /// The step in words.
    pub fn message(&self) -> (r: String)
        ensures
            r@ == self@.words(),
    {
        match self {
            SpawnStep::LoadingIdentity => "Loading identity...".to_owned(),
            SpawnStep::GeneratingPow => "Generating proof-of-work (first run)...".to_owned(),
            SpawnStep::BindingTransport { addr } => framed("Binding to ", addr.as_str(), "..."),
            SpawnStep::SpawningNode => "Spawning node...".to_owned(),
            SpawnStep::ResolvingBootstrap { domain } => framed(
                "Resolving bootstrap (",
                domain.as_str(),
                ")...",
            ),
            SpawnStep::ConnectingBootstrap { count } => framed(
                "Connecting to ",
                write_number(*count as u64).as_str(),
                if *count == 1 {
                    " bootstrap peer..."
                } else {
                    " bootstrap peers..."
                },
            ),
            SpawnStep::StartingMdns => "Starting mDNS discovery...".to_owned(),
        }
    }
}

/// The lines that say that the node runs, and how it is seen from outside.
pub open spec fn spawned_text(
    node_id: Seq<char>,
    local_addr: Seq<char>,
    external: Option<Seq<char>>,
) -> Seq<Line<Seq<char>>> {
    seq![
        err("Node spawned: node_id="@ + node_id + " local_addr="@ + local_addr),
        match external {
            Some(a) => err("External address (from bootstrap): "@ + a),
            None => err("External address: not yet discovered (no bootstrap response?)"@),
        },
    ]
}

/// The line that says where the node listens, with its facts in bold where colour is welcome.
pub open spec fn listening_text(
    node_id: Seq<char>,
    local_addr: Seq<char>,
    no_color: bool,
) -> Line<Seq<char>> {
    err(
        if no_color {
            "Node "@ + node_id + " listening on "@ + local_addr
        } else {
            "Node \x1b[1m"@ + node_id + "\x1b[0m listening on \x1b[1m"@ + local_addr + "\x1b[0m"@
        },
    )
}

/// The lines that say that the node runs, and how it is seen from outside.
pub fn spawned_lines(node_id: &str, local_addr: &str, external: Option<&str>) -> (r: Vec<Line>)
    ensures
        lines_of(r@) == spawned_text(
            node_id@,
            local_addr@,
            match external {
                Some(a) => Some(a@),
                None => None,
            },
        ),
{
    let mut spawned = framed("Node spawned: node_id=", node_id, " local_addr=");
    spawned.append(local_addr);
    let mut r: Vec<Line> = Vec::new();
    r.push(err_line(spawned));
    match external {
        Some(a) => r.push(err_line(framed("External address (from bootstrap): ", a, ""))),
        None => r.push(
            err_line("External address: not yet discovered (no bootstrap response?)".to_owned()),
        ),
    }
    proof {
        reveal_strlit("");
        if let Some(a) = external {
            assert("External address (from bootstrap): "@ + a@ + ""@
                =~= "External address (from bootstrap): "@ + a@);
        }
    }
    assert(lines_of(r@) =~= spawned_text(
        node_id@,
        local_addr@,
        match external {
            Some(a) => Some(a@),
            None => None,
        },
    ));
    r
}

/// The line that says where the node listens, with its facts in bold where colour is welcome.
pub fn listening_line(node_id: &str, local_addr: &str, no_color: bool) -> (r: Line)
    ensures
        r@ == listening_text(node_id@, local_addr@, no_color),
{
    if no_color {
        let mut t = framed("Node ", node_id, " listening on ");
        t.append(local_addr);
        err_line(t)
    } else {
        let mut t = framed("Node \x1b[1m", node_id, "\x1b[0m listening on \x1b[1m");
        t.append(local_addr);
        t.append("\x1b[0m");
        err_line(t)
    }
}

/// What a progress report shows after a step: parts are numbered from 1.
pub open spec fn progress_of(step: TransferStep) -> Progress<Seq<char>> {
    match step {
        TransferStep::Encoding { block } => Progress::Message(
            "encoding "@ + decimal((block + 1) as nat),
        ),
        TransferStep::Distributing { block } => Progress::Message(
            "distributing "@ + decimal((block + 1) as nat),
        ),
        TransferStep::BlockComplete { block } => Progress::Position((block + 1) as u64),
        TransferStep::Fetching { chunk } => Progress::Message(
            "fetching "@ + decimal((chunk + 1) as nat),
        ),
        TransferStep::ChunkComplete { chunk } => Progress::Position((chunk + 1) as u64),
    }
}

fn numbered(what: &str, part: u32) -> (r: Progress)
    ensures
        r@ == Progress::Message(what@ + decimal((part + 1) as nat)),
{
    let mut t = what.to_owned();
    t.append(write_number(part as u64 + 1).as_str());
    Progress::Message(t)
}

/// What a progress report shows after a step: parts are numbered from 1.
pub fn show_progress(step: TransferStep) -> (r: Progress)
    ensures
        r@ == progress_of(step),
{
    match step {
        TransferStep::Encoding { block } => numbered("encoding ", block),
        TransferStep::Distributing { block } => numbered("distributing ", block),
        TransferStep::BlockComplete { block } => Progress::Position(block as u64 + 1),
        TransferStep::Fetching { chunk } => numbered("fetching ", chunk),
        TransferStep::ChunkComplete { chunk } => Progress::Position(chunk as u64 + 1),
    }
}

/// What is printed after an attempt to read a line.
pub open spec fn input_lines(input: Input<Seq<char>>) -> Seq<Line<Seq<char>>> {
    match input {
        Input::EndOfInput => seq![out("bye"@)],
        Input::Failed(e) => seq![err("readline error: "@ + e)],
        _ => seq![],
    }
}

/// What follows it: an interrupt is no reason to leave, the end of the input and a failure are.
pub open spec fn next_of(input: Input<Seq<char>>) -> Next<Seq<char>> {
    match input {
        Input::Typed(line) => Next::Run(line),
        Input::Interrupted => Next::Again,
        _ => Next::Leave,
    }
}

/// What is printed after an attempt to read a line, and what follows.
pub fn on_input(input: Input) -> (r: (Vec<Line>, Next))
    ensures
        lines_of(r.0@) == input_lines(input@),
        r.1@ == next_of(input@),
{
    let mut lines: Vec<Line> = Vec::new();
    assert(lines_of(lines@) =~= Seq::<Line<Seq<char>>>::empty());
    match input {
        Input::Typed(line) => (lines, Next::Run(line)),
        Input::Interrupted => (lines, Next::Again),
        Input::EndOfInput => {
            lines.push(out_line("bye".to_owned()));
            assert(lines_of(lines@) =~= seq![out("bye"@)]);
            (lines, Next::Leave)
        },
        Input::Failed(e) => {
            let mut text = "readline error: ".to_owned();
            text.append(e.as_str());
            lines.push(err_line(text));
            assert(lines_of(lines@) =~= seq![err("readline error: "@ + e@)]);
            (lines, Next::Leave)
        },
    }
}

/// A typed line is run as it was typed; an interrupt is passed over in silence; the end of the input
/// and a failure, with its reason, leave the shell.
pub proof fn lines_are_run_as_typed(line: Seq<char>, why: Seq<char>)
    ensures
        next_of(Input::Typed(line)) == Next::Run(line),
        input_lines(Input::Typed(line)).len() == 0,
        next_of(Input::Interrupted) is Again,
        input_lines(Input::Interrupted).len() == 0,
        next_of(Input::EndOfInput) is Leave,
        input_lines(Input::EndOfInput).len() == 1 && input_lines(
            Input::EndOfInput,
        )[0].stream is Stdout,
        next_of(Input::Failed(why)) is Leave,
        input_lines(Input::Failed(why)).len() == 1,
        input_lines(Input::Failed(why))[0].stream is Stderr,
        why.is_suffix_of(input_lines(Input::Failed(why))[0].text),
{
    lemma_ends_with("readline error: "@, why);
}

proof fn lemma_ends_with(a: Seq<char>, b: Seq<char>)
    ensures
        b.is_suffix_of(a + b),
{
    assert((a + b).subrange(a.len() as int, (a + b).len() as int) =~= b);
}

/// Parts are counted from 1: a part that is under way is told by its number, and when it is done,
/// that many are.
pub proof fn parts_are_counted_from_one(i: u32)
    ensures
        progress_of(TransferStep::BlockComplete { block: i }) == Progress::Position::<Seq<char>>(
            (i + 1) as u64,
        ),
        progress_of(TransferStep::ChunkComplete { chunk: i }) == Progress::Position::<Seq<char>>(
            (i + 1) as u64,
        ),
        progress_of(TransferStep::Encoding { block: i }) matches Progress::Message(t)
            && decimal((i + 1) as nat).is_suffix_of(t),
        progress_of(TransferStep::Distributing { block: i }) matches Progress::Message(t)
            && decimal((i + 1) as nat).is_suffix_of(t),
        progress_of(TransferStep::Fetching { chunk: i }) matches Progress::Message(t) && decimal(
            (i + 1) as nat,
        ).is_suffix_of(t),
{
    let n = decimal((i + 1) as nat);
    lemma_ends_with("encoding "@, n);
    lemma_ends_with("distributing "@, n);
    lemma_ends_with("fetching "@, n);
}

/// A step of the start is told with its address, its domain or its number of peers.
pub proof fn steps_are_told_as_they_are(text: Seq<char>, count: usize)
    ensures
        contains_text(SpawnStep::BindingTransport { addr: text }.words(), text),
        contains_text(SpawnStep::ResolvingBootstrap { domain: text }.words(), text),
        contains_text(
            SpawnStep::ConnectingBootstrap::<Seq<char>> { count }.words(),
            decimal(count as nat),
        ),
{
    let n = decimal(count as nat);
    texts_are_found_anywhere(text, "Binding to "@, text, "..."@);
    texts_are_found_anywhere(text, "Resolving bootstrap ("@, text, ")..."@);
    texts_are_found_anywhere(n, "Connecting to "@, n, " bootstrap peer..."@);
    texts_are_found_anywhere(n, "Connecting to "@, n, " bootstrap peers..."@);
}

/// What is said of the node holds its id and its address as they are, and its external address where
/// one is known.
pub proof fn the_node_is_told_as_it_is(id: Seq<char>, addr: Seq<char>, external: Seq<char>)
    ensures
        ({
            let known = spawned_text(id, addr, Some(external));
            let unknown = spawned_text(id, addr, None);
            &&& known.len() == 2 && unknown.len() == 2
            &&& known[0] == unknown[0]
            &&& known[0].stream is Stderr && known[1].stream is Stderr
            &&& contains_text(known[0].text, id)
            &&& addr.is_suffix_of(known[0].text)
            &&& external.is_suffix_of(known[1].text)
        }),
        forall|no_color: bool|
            {
                let line = #[trigger] listening_text(id, addr, no_color);
                &&& line.stream is Stderr
                &&& contains_text(line.text, id)
                &&& contains_text(line.text, addr)
            },
        addr.is_suffix_of(listening_text(id, addr, true).text),
{
    let a = "Node spawned: node_id="@;
    texts_are_found_anywhere(id, a, id, " local_addr="@ + addr);
    assert(a + id + " local_addr="@ + addr =~= a + id + (" local_addr="@ + addr));
    lemma_ends_with(a + id + " local_addr="@, addr);
    lemma_ends_with("External address (from bootstrap): "@, external);
    let plain = "Node "@ + id + " listening on "@;
    lemma_ends_with(plain, addr);
    texts_are_found_anywhere(id, "Node "@, id, " listening on "@ + addr);
    assert(plain + addr =~= "Node "@ + id + (" listening on "@ + addr));
    texts_are_found_anywhere(id, plain, addr, Seq::empty());
    assert(plain + addr + Seq::<char>::empty() =~= plain + addr);
    let on = "\x1b[0m listening on \x1b[1m"@;
    let end = "\x1b[0m"@;
    let head = "Node \x1b[1m"@ + id + on;
    texts_are_found_anywhere(id, "Node \x1b[1m"@, id, on + addr + end);
    assert(head + addr + end =~= "Node \x1b[1m"@ + id + (on + addr + end));
    texts_are_found_anywhere(id, head, addr, end);
}

} // verus!
