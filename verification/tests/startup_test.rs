use tesseras_repl::protocol::{Line, Stream};
use tesseras_repl::startup::{
    listening_line, on_input, show_progress, spawned_lines, Input, Next, Progress, SpawnStep,
    TransferStep,
};

fn out(text: &str) -> Line {
    Line { stream: Stream::Stdout, text: text.into() }
}

fn err(text: &str) -> Line {
    Line { stream: Stream::Stderr, text: text.into() }
}

#[test]
fn steps_of_the_start_in_words() {
    assert_eq!(SpawnStep::LoadingIdentity.message(), "Loading identity...");
    assert_eq!(
        SpawnStep::GeneratingPow.message(),
        "Generating proof-of-work (first run)..."
    );
    assert_eq!(
        SpawnStep::BindingTransport { addr: "[::]:4433".into() }.message(),
        "Binding to [::]:4433..."
    );
    assert_eq!(SpawnStep::SpawningNode.message(), "Spawning node...");
    assert_eq!(
        SpawnStep::ResolvingBootstrap { domain: "tesseras.net".into() }.message(),
        "Resolving bootstrap (tesseras.net)..."
    );
    assert_eq!(
        SpawnStep::ConnectingBootstrap { count: 1 }.message(),
        "Connecting to 1 bootstrap peer..."
    );
    assert_eq!(
        SpawnStep::ConnectingBootstrap { count: 0 }.message(),
        "Connecting to 0 bootstrap peers..."
    );
    assert_eq!(SpawnStep::StartingMdns.message(), "Starting mDNS discovery...");
}

#[test]
fn the_node_is_introduced() {
    assert_eq!(
        spawned_lines("id", "addr", Some("ext")),
        vec![
            err("Node spawned: node_id=id local_addr=addr"),
            err("External address (from bootstrap): ext"),
        ]
    );
    assert_eq!(
        spawned_lines("id", "addr", None)[1],
        err("External address: not yet discovered (no bootstrap response?)")
    );
    assert_eq!(listening_line("id", "addr", true), err("Node id listening on addr"));
    assert_eq!(
        listening_line("id", "addr", false),
        err("Node \x1b[1mid\x1b[0m listening on \x1b[1maddr\x1b[0m")
    );
}

#[test]
fn progress_counts_from_one() {
    assert_eq!(
        show_progress(TransferStep::Encoding { block: 0 }),
        Progress::Message("encoding 1".into())
    );
    assert_eq!(
        show_progress(TransferStep::Distributing { block: 9 }),
        Progress::Message("distributing 10".into())
    );
    assert_eq!(
        show_progress(TransferStep::BlockComplete { block: u32::MAX }),
        Progress::Position(4294967296)
    );
    assert_eq!(
        show_progress(TransferStep::Fetching { chunk: 1 }),
        Progress::Message("fetching 2".into())
    );
    assert_eq!(
        show_progress(TransferStep::ChunkComplete { chunk: 1 }),
        Progress::Position(2)
    );
}

#[test]
fn typed_lines_run_and_the_end_leaves() {
    assert_eq!(on_input(Input::Typed("list".into())), (vec![], Next::Run("list".into())));
    assert_eq!(on_input(Input::Interrupted), (vec![], Next::Again));
    assert_eq!(on_input(Input::EndOfInput), (vec![out("bye")], Next::Leave));
    assert_eq!(
        on_input(Input::Failed("no tty".into())),
        (vec![err("readline error: no tty")], Next::Leave)
    );
}
