//! What each command is for: how a typed line leads to what is read, stored, shown or changed.

use crate::args::{
    list_filter, list_limit, name_flag, plain_names_read_back, quoted_names_read_back,
    quoted_names_stand_alone, typed_filters_read_back, typed_limits_stand_anywhere,
};
use crate::content::{keys_in, not_a_token};
use crate::number::{decimal, is_digit, lemma_decimal};
use crate::protocol::{Action, Event, Line, NetFailure, Pending, Stream};
use crate::session::{
    alias_args, alias_exists_line, alias_is_free, alias_step, awaited, blocks_shown, can_stamp,
    command_of, delete_step, done, edit_step, entry_line, error_line, folded_aliases,
    folded_filter, get_step, last_of, list_step,
    listings_are_complete_and_ordered, not_found_line, on_event, on_line, passes, passing,
    put_step, referenced, references_resolve_to_entries, retrieve_step, retrieving_line, stamp, store_step,
    storing_line, takes, too_large_line, Session, Step,
};
use crate::text::{
    contains_text, is_blank, is_space, is_tight, is_word, joined, lemma_find_where,
    lemma_trimmed_start,
    only_white_space_is_trimmed_away, prefixes_come_off, texts_are_cut_at_the_first_mark,
    texts_are_cut_at_the_last_mark, texts_are_found_anywhere, trimmed, trimmed_start,
    trimming_keeps_the_text,
};
use crate::timeout::{blocks, capped};
use crate::tokens::{has_alias, resolved, with_token, Entry};
use crate::unicode::{lemma_bytes_in_a_row, lossy_decoding, lowercase};
use vstd::prelude::*;
use vstd::utf8::*;

verus! {

// -- Lines ------------------------------------------------------------------------------------

/// A line is read as what stands before its first blank and what follows, however much white space
/// stands before, between and behind them.
pub proof fn lines_are_read_past_white_space(
    a: Seq<char>,
    cmd: Seq<char>,
    gap: Seq<char>,
    arg: Seq<char>,
    b: Seq<char>,
)
    requires
        is_blank(a),
        is_blank(gap),
        is_blank(b),
        is_tight(cmd),
        !cmd.contains(' '),
        is_tight(arg),
    ensures
        command_of(a + (cmd + " "@ + gap + arg) + b) == (cmd, arg),
        command_of(a + cmd + b) == (cmd, ""@),
        trimmed(a + (cmd + " "@ + gap + arg) + b).len() > 0,
        trimmed(a + cmd + b).len() > 0,
{
    reveal_strlit(" ");
    let t = cmd + " "@ + gap + arg;
    assert(is_space(' '));
    assert(t[0] == cmd[0] && !is_space(cmd[0]));
    assert(t.last() == arg.last());
    trimming_keeps_the_text(a, t, b);
    texts_are_cut_at_the_first_mark(cmd, ' ', gap + arg);
    assert(t =~= cmd.push(' ') + (gap + arg));
    trimming_keeps_the_text(gap, arg, Seq::empty());
    assert(gap + arg + Seq::<char>::empty() =~= gap + arg);
    trimming_keeps_the_text(a, cmd, b);
}

proof fn lemma_typed(cmd: Seq<char>, arg: Seq<char>)
    requires
        is_word(cmd),
        is_tight(arg),
    ensures
        command_of(cmd + " "@ + arg) == (cmd, arg),
        trimmed(cmd + " "@ + arg).len() > 0,
        command_of(cmd) == (cmd, ""@),
        trimmed(cmd).len() > 0,
{
    let none = Seq::<char>::empty();
    assert(!is_space(cmd[0]) && !is_space(cmd[cmd.len() - 1]));
    if cmd.contains(' ') {
        let i = choose|i: int| 0 <= i < cmd.len() && cmd[i] == ' ';
        assert(!is_space(cmd[i]));
    }
    lines_are_read_past_white_space(none, cmd, none, arg, none);
    assert(none + (cmd + " "@ + none + arg) + none =~= cmd + " "@ + arg);
    assert(none + cmd + none =~= cmd);
}

proof fn lemma_words_of_commands()
    ensures
        is_word("put"@) && "put"@[0] == 'p',
        is_word("get"@) && "get"@[0] == 'g',
        is_word("delete"@) && "delete"@[0] == 'd',
        is_word("alias"@) && "alias"@[0] == 'a',
        is_word("info"@) && "info"@[0] == 'i',
        is_word("list"@) && "list"@[0] == 'l',
        is_word("edit"@) && "edit"@[0] == 'e' && "edit"@[1] == 'd',
        is_word("help"@) && "help"@[0] == 'h',
        is_word("?"@) && "?"@[0] == '?',
        is_word("exit"@) && "exit"@[0] == 'e' && "exit"@[1] == 'x',
        is_word("bye"@) && "bye"@[0] == 'b',
{
    reveal_strlit("put");
    reveal_strlit("get");
    reveal_strlit("delete");
    reveal_strlit("alias");
    reveal_strlit("info");
    reveal_strlit("list");
    reveal_strlit("edit");
    reveal_strlit("help");
    reveal_strlit("?");
    reveal_strlit("exit");
    reveal_strlit("bye");
}

// -- Names ------------------------------------------------------------------------------------

/// A name that needs no quotation marks.
pub open spec fn is_plain_name(n: Seq<char>) -> bool {
    n.len() > 0 && !is_space(n[0]) && n[0] != '"' && !n.contains(' ')
}

/// `name` as it is given behind `--name`: in quotation marks, or as it stands where it needs none.
pub open spec fn gives_name(given: Seq<char>, name: Seq<char>) -> bool {
    ||| given == name && is_plain_name(name)
    ||| given == "\""@ + name + "\""@ && !name.contains('"')
}

proof fn lemma_given_name(given: Seq<char>, name: Seq<char>, rest: Seq<char>)
    requires
        gives_name(given, name),
        trimmed_start(rest) == rest,
    ensures
        name_flag("--name "@ + given + " "@ + rest) == (Some(name), rest),
        given.len() > 0,
{
    reveal_strlit(" ");
    reveal_strlit("\"");
    reveal_strlit("\" ");
    reveal_strlit("--name ");
    reveal_strlit("--name \"");
    if given == name && is_plain_name(name) {
        assert forall|i: int| 0 <= i < name.len() implies #[trigger] name[i] != ' ' by {
            assert(name.contains(name[i]));
        }
        plain_names_read_back(name, rest);
    } else {
        assert forall|i: int| 0 <= i < name.len() implies #[trigger] name[i] != '"' by {
            assert(name.contains(name[i]));
        }
        quoted_names_read_back(name, rest);
        assert("--name "@ + given + " "@ + rest =~= "--name \""@ + name + "\" "@ + rest);
    }
}

// -- Putting files ----------------------------------------------------------------------------

/// To put a file reads the file that is named, under just that path, however much white space stands
/// before it.
pub proof fn put_reads_the_named_file(s: Session, gap: Seq<char>, path: Seq<char>)
    requires
        s.pending is Idle,
        is_blank(gap),
        is_tight(path),
    ensures
        on_line(s, "put --file "@ + gap + path) == (Step {
            session: Session { pending: Pending::FileRead { alias: None }, ..s },
            lines: seq![],
            action: Action::ReadFile { path },
        }),
        on_line(s, "put --file "@ + path) == on_line(s, "put --file "@ + gap + path),
{
    lemma_put_file(s, gap, path);
    lemma_put_file(s, Seq::empty(), path);
    assert("put --file "@ + Seq::<char>::empty() + path =~= "put --file "@ + path);
}

proof fn lemma_put_file(s: Session, gap: Seq<char>, path: Seq<char>)
    requires
        s.pending is Idle,
        is_blank(gap),
        is_tight(path),
    ensures
        on_line(s, "put --file "@ + gap + path) == (Step {
            session: Session { pending: Pending::FileRead { alias: None }, ..s },
            lines: seq![],
            action: Action::ReadFile { path },
        }),
{
    reveal_strlit("put --file ");
    reveal_strlit("--file ");
    reveal_strlit("--name ");
    reveal_strlit(" ");
    reveal_strlit("put");
    lemma_words_of_commands();
    let arg = "--file "@ + (gap + path);
    assert(arg[0] == '-' && arg.last() == path.last());
    lemma_typed("put"@, arg);
    assert("put --file "@ + gap + path =~= "put"@ + " "@ + arg);
    assert(!"--name "@.is_prefix_of(arg)) by {
        assert(arg[2] == 'f' && "--name "@[2] == 'n');
        if "--name "@.is_prefix_of(arg) {
            assert(arg.subrange(0, 7)[2] == arg[2]);
        }
    }
    prefixes_come_off("--file "@, gap + path);
    trimming_keeps_the_text(gap, path, Seq::empty());
    assert(gap + path + Seq::<char>::empty() =~= gap + path);
}

/// The same under a name that the file is to have.
pub proof fn put_reads_the_named_file_for_a_name(
    s: Session,
    given: Seq<char>,
    name: Seq<char>,
    gap: Seq<char>,
    path: Seq<char>,
)
    requires
        s.pending is Idle,
        is_blank(gap),
        is_tight(path),
        gives_name(given, name),
    ensures
        on_line(s, "put --name "@ + given + " --file "@ + gap + path) == (Step {
            session: Session { pending: Pending::FileRead { alias: Some(name) }, ..s },
            lines: seq![],
            action: Action::ReadFile { path },
        }),
{
    reveal_strlit("put --name ");
    reveal_strlit(" --file ");
    reveal_strlit("--file ");
    reveal_strlit("--name ");
    reveal_strlit(" ");
    reveal_strlit("put");
    lemma_words_of_commands();
    let rest = "--file "@ + (gap + path);
    let arg = "--name "@ + given + " "@ + rest;
    assert(rest[0] == '-' && rest.last() == path.last());
    trimming_keeps_the_text(Seq::empty(), rest, Seq::empty());
    lemma_given_name(given, name, rest);
    assert(arg[0] == '-' && arg.last() == path.last());
    lemma_typed("put"@, arg);
    assert("put --name "@ + given + " --file "@ + gap + path =~= "put"@ + " "@ + arg);
    prefixes_come_off("--file "@, gap + path);
    trimming_keeps_the_text(gap, path, Seq::empty());
    assert(gap + path + Seq::<char>::empty() =~= gap + path);
}

// -- Storing ----------------------------------------------------------------------------------

/// The step asks the network to store just this data, to be remembered under this name. Blocks are
/// those of 256 KiB that the data takes up; a file gets a progress report, and what is put gets two
/// seconds more per block.
pub open spec fn asks_to_store(
    step: Step,
    s: Session,
    data: Seq<u8>,
    alias: Option<Seq<char>>,
    edited: bool,
    progress: bool,
) -> bool {
    &&& step.session == Session { pending: Pending::Stored { alias, edited }, ..s }
    &&& step.action is Store
    &&& step.action->Store_data == data
    &&& step.action->Store_progress == progress
    &&& 1 <= step.action->Store_blocks
    &&& data.len() <= 262144 * step.action->Store_blocks
    &&& step.action->Store_blocks > 1 ==> data.len() > 262144 * (step.action->Store_blocks - 1)
    &&& step.action->Store_timeout == (if edited || data.len() == 0 {
        30
    } else if step.action->Store_blocks < 285 {
        30 + 2 * step.action->Store_blocks
    } else {
        600
    })
    &&& edited ==> step.lines.len() == 0
    &&& !edited ==> step.lines.len() == 1 && step.lines[0].stream is Stderr && contains_text(
        step.lines[0].text,
        decimal(data.len()),
    )
}

/// The command ends with one line, and nothing has changed.
pub open spec fn ends_with_one_line(step: Step, s: Session) -> bool {
    &&& step.session == Session { pending: Pending::Idle, ..s }
    &&& step.action is Prompt
    &&& step.lines.len() == 1
}

/// The same, and the line is an error that mentions `what`.
pub open spec fn is_refused(step: Step, s: Session, what: Seq<char>) -> bool {
    &&& ends_with_one_line(step, s)
    &&& step.lines[0].stream is Stderr
    &&& "error: "@.is_prefix_of(step.lines[0].text)
    &&& contains_text(step.lines[0].text, what)
}

proof fn lemma_mentions(a: Seq<char>, what: Seq<char>, b: Seq<char>)
    ensures
        contains_text(a + what + b, what),
        contains_text(a + what, what),
{
    texts_are_found_anywhere(a, a, what, b);
    texts_are_found_anywhere(a, a, what, Seq::empty());
    assert(a + what + Seq::<char>::empty() =~= a + what);
}

proof fn lemma_storing(size: nat)
    ensures
        contains_text(storing_line(size).text, decimal(size)),
{
    let n = blocks_shown(size);
    let end = " bytes ("@ + decimal(n) + (if n == 1 {
        " block"@
    } else {
        " blocks"@
    }) + ", timeout="@ + decimal(capped(30 + 2 * blocks(size))) + "s)..."@;
    lemma_mentions("storing "@, decimal(size), end);
    assert(storing_line(size).text =~= "storing "@ + decimal(size) + end);
}

proof fn lemma_too_large(s: Session, what: Seq<char>, size: nat, max: nat)
    ensures
        is_refused(done(s, seq![too_large_line(what, size, max)]), s, decimal(size)),
{
    let text = too_large_line(what, size, max).text;
    let a = "error: "@ + what + " too large ("@;
    let b = " bytes, max "@ + decimal(max) + ")"@;
    lemma_mentions(a, decimal(size), b);
    assert(text =~= a + decimal(size) + b);
    prefixes_come_off("error: "@, text.skip("error: "@.len() as int));
    assert(text =~= "error: "@ + text.skip("error: "@.len() as int));
}

proof fn lemma_taken(s: Session, name: Seq<char>)
    ensures
        is_refused(done(s, seq![alias_exists_line(name)]), s, name),
{
    let text = alias_exists_line(name).text;
    lemma_mentions("error: alias '"@, name, "' already exists"@);
    reveal_strlit("error: ");
    reveal_strlit("error: alias '");
    assert(text.subrange(0, 7) =~= "error: "@);
}

proof fn lemma_store(s: Session, alias: Option<Seq<char>>, data: Seq<u8>, is_file: bool)
    requires
        data.len() <= 67108864,
    ensures
        alias_is_free(s.entries, alias) ==> asks_to_store(
            store_step(s, alias, data, is_file),
            s,
            data,
            alias,
            false,
            is_file,
        ),
        !alias_is_free(s.entries, alias) ==> is_refused(
            store_step(s, alias, data, is_file),
            s,
            alias->0,
        ),
{
    lemma_storing(data.len());
    if let Some(a) = alias {
        lemma_taken(s, a);
    }
}

/// To put content stores what is typed, up to 1 MiB of it.
pub proof fn put_stores_what_is_typed(s: Session, content: Seq<char>)
    requires
        s.pending is Idle,
        is_tight(content),
        !"--name "@.is_prefix_of(content),
        !"--file "@.is_prefix_of(content),
    ensures
        ({
            let step = on_line(s, "put "@ + content);
            let data = encode_utf8(content);
            &&& data.len() <= 1048576 ==> asks_to_store(step, s, data, None, false, false)
            &&& data.len() > 1048576 ==> is_refused(step, s, decimal(data.len()))
        }),
{
    reveal_strlit("put ");
    reveal_strlit("put");
    reveal_strlit(" ");
    lemma_words_of_commands();
    lemma_typed("put"@, content);
    assert("put "@ + content =~= "put"@ + " "@ + content);
    if encode_utf8(content).len() <= 1048576 {
        lemma_store(s, None, encode_utf8(content), false);
    }
    lemma_too_large(s, "content"@, encode_utf8(content).len(), 1048576);
}

/// The same under a name, unless an entry has that name.
pub proof fn put_stores_what_is_typed_for_a_name(
    s: Session,
    given: Seq<char>,
    name: Seq<char>,
    content: Seq<char>,
)
    requires
        s.pending is Idle,
        is_tight(content),
        !"--file "@.is_prefix_of(content),
        gives_name(given, name),
    ensures
        ({
            let step = on_line(s, "put --name "@ + given + " "@ + content);
            let data = encode_utf8(content);
            &&& data.len() <= 1048576 && !has_alias(s.entries, name) ==> asks_to_store(
                step,
                s,
                data,
                Some(name),
                false,
                false,
            )
            &&& data.len() <= 1048576 && has_alias(s.entries, name) ==> is_refused(step, s, name)
            &&& data.len() > 1048576 ==> is_refused(step, s, decimal(data.len()))
        }),
{
    reveal_strlit("put --name ");
    reveal_strlit("--name ");
    reveal_strlit("put");
    reveal_strlit(" ");
    lemma_words_of_commands();
    let arg = "--name "@ + given + " "@ + content;
    trimming_keeps_the_text(Seq::empty(), content, Seq::empty());
    lemma_given_name(given, name, content);
    assert(arg[0] == '-' && arg.last() == content.last());
    lemma_typed("put"@, arg);
    assert("put --name "@ + given + " "@ + content =~= "put"@ + " "@ + arg);
    if encode_utf8(content).len() <= 1048576 {
        lemma_store(s, Some(name), encode_utf8(content), false);
    }
    lemma_too_large(s, "content"@, encode_utf8(content).len(), 1048576);
}

/// A name alone is nothing to store.
pub proof fn put_needs_something_to_store(s: Session, given: Seq<char>, name: Seq<char>)
    requires
        s.pending is Idle,
        gives_name(given, name),
        is_tight(given),
    ensures
        on_line(s, "put --name "@ + given) == on_line(s, "put"@),
{
    reveal_strlit("put --name ");
    reveal_strlit("--name ");
    reveal_strlit("--file ");
    reveal_strlit("put");
    reveal_strlit(" ");
    reveal_strlit("");
    lemma_words_of_commands();
    let arg = "--name "@ + given;
    assert(arg[0] == '-' && arg.last() == given.last());
    lemma_typed("put"@, arg);
    assert("put --name "@ + given =~= "put"@ + " "@ + arg);
    assert(!"--name "@.is_prefix_of(""@));
    assert(!"--file "@.is_prefix_of(""@));
    lemma_name_alone(given, name);
}

proof fn lemma_name_alone(given: Seq<char>, name: Seq<char>)
    requires
        gives_name(given, name),
    ensures
        name_flag("--name "@ + given) == (Some(name), ""@),
{
    reveal_strlit("--name ");
    reveal_strlit("--name \"");
    reveal_strlit("\"");
    reveal_strlit("");
    if given == name && is_plain_name(name) {
        assert forall|i: int| 0 <= i < name.len() implies #[trigger] name[i] != ' ' by {
            assert(name.contains(name[i]));
        }
        lemma_trimmed_start(""@, 0);
        assert(""@.skip(0) =~= ""@);
        plain_names_read_back(name, ""@);
    } else {
        assert forall|i: int| 0 <= i < name.len() implies #[trigger] name[i] != '"' by {
            assert(name.contains(name[i]));
        }
        quoted_names_stand_alone(name);
        assert("--name "@ + given =~= "--name \""@ + name + "\""@);
    }
}

/// What a file holds is stored as it is, up to 64 MiB of it, under the name that was given, unless
/// an entry has that name.
pub proof fn files_are_stored_as_they_are(s: Session, alias: Option<Seq<char>>, data: Seq<u8>)
    requires
        s.pending == (Pending::FileRead { alias }),
    ensures
        ({
            let step = on_event(s, Event::FileRead(Ok(data)));
            let taken = alias matches Some(a) && has_alias(s.entries, a);
            &&& data.len() <= 67108864 && !taken ==> asks_to_store(
                step,
                s,
                data,
                alias,
                false,
                true,
            )
            &&& data.len() <= 67108864 && taken ==> is_refused(step, s, alias->0)
            &&& data.len() > 67108864 ==> is_refused(step, s, decimal(data.len()))
        }),
{
    if data.len() <= 67108864 {
        lemma_store(s, alias, data, true);
    } else {
        lemma_too_large(s, "file"@, data.len(), 67108864);
    }
}

// -- Editing ----------------------------------------------------------------------------------

/// To edit opens the editor, and keeps the name that is given, unless an entry has it.
pub proof fn edit_opens_the_editor(s: Session, given: Seq<char>, name: Seq<char>)
    requires
        s.pending is Idle,
        gives_name(given, name),
        is_tight(given),
    ensures
        on_line(s, "edit"@) == (Step {
            session: Session { pending: Pending::Edited { alias: None }, ..s },
            lines: seq![],
            action: Action::RunEditor,
        }),
        !has_alias(s.entries, name) ==> on_line(s, "edit --name "@ + given) == (Step {
            session: Session { pending: Pending::Edited { alias: Some(name) }, ..s },
            lines: seq![],
            action: Action::RunEditor,
        }),
        has_alias(s.entries, name) ==> is_refused(on_line(s, "edit --name "@ + given), s, name),
{
    reveal_strlit("edit --name ");
    reveal_strlit("--name ");
    reveal_strlit("edit");
    reveal_strlit(" ");
    reveal_strlit("");
    lemma_words_of_commands();
    let arg = "--name "@ + given;
    assert(arg[0] == '-' && arg.last() == given.last());
    lemma_typed("edit"@, arg);
    assert("edit --name "@ + given =~= "edit"@ + " "@ + arg);
    assert(!"--name "@.is_prefix_of(""@));
    lemma_name_alone(given, name);
    lemma_taken(s, name);
}

/// What follows `edit` without a name does not matter.
pub proof fn edit_needs_no_name(s: Session, arg: Seq<char>)
    requires
        s.pending is Idle,
        is_tight(arg),
        !"--name "@.is_prefix_of(arg),
    ensures
        on_line(s, "edit "@ + arg) == on_line(s, "edit"@),
{
    reveal_strlit("edit ");
    reveal_strlit("edit");
    reveal_strlit("--name ");
    reveal_strlit(" ");
    reveal_strlit("");
    lemma_words_of_commands();
    lemma_typed("edit"@, arg);
    assert("edit "@ + arg =~= "edit"@ + " "@ + arg);
    assert(!"--name "@.is_prefix_of(""@));
}

/// What is composed in the editor is stored as it stands, however many lines it has, just when it
/// holds something else than white space and is no more than 1 MiB, and under the name that was
/// given.
pub proof fn composed_text_is_stored(s: Session, alias: Option<Seq<char>>, content: Seq<char>)
    requires
        s.pending == (Pending::Edited { alias }),
    ensures
        ({
            let step = on_event(s, Event::Edited(Ok(content)));
            let data = encode_utf8(content);
            let something = exists|i: int| 0 <= i < content.len() && !is_space(#[trigger] content[i]);
            &&& step.action is Store <==> something && data.len() <= 1048576
            &&& something && data.len() <= 1048576 ==> asks_to_store(
                step,
                s,
                data,
                alias,
                true,
                false,
            )
            &&& !something ==> ends_with_one_line(step, s) && step.lines[0].stream is Stdout
            &&& something && data.len() > 1048576 ==> is_refused(step, s, decimal(data.len()))
        }),
{
    only_white_space_is_trimmed_away(content);
    lemma_too_large(s, "content"@, encode_utf8(content).len(), 1048576);
}

// -- Naming -----------------------------------------------------------------------------------

/// The argument of an alias command is a reference up to the first blank, and a name behind it,
/// blanks in it included, but not the white space before it. Quotation marks around the name are not
/// part of it. Without a name, or with an empty one in quotation marks, the name is to be removed.
pub proof fn aliases_read_back(target: Seq<char>, gap: Seq<char>, name: Seq<char>)
    requires
        !target.contains(' '),
        is_blank(gap),
    ensures
        is_tight(name) && name[0] != '"' ==> alias_args(target + " "@ + name) == (
            target,
            Some(name),
        ),
        is_tight(name) ==> alias_args(target + " "@ + gap + name) == alias_args(
            target + " "@ + name,
        ),
        name.len() > 0 ==> alias_args(target + " \""@ + name + "\""@) == (target, Some(name)),
        alias_args(target) == (target, None::<Seq<char>>),
        alias_args(target + " \"\""@) == (target, None::<Seq<char>>),
{
    reveal_strlit(" ");
    reveal_strlit("\"");
    reveal_strlit(" \"");
    reveal_strlit(" \"\"");
    let none = Seq::<char>::empty();
    texts_are_cut_at_the_first_mark(target, ' ', name);
    assert(target + " "@ + name =~= target.push(' ') + name);
    if is_tight(name) {
        trimming_keeps_the_text(none, name, none);
        trimming_keeps_the_text(gap, name, none);
        assert(gap + name + none =~= gap + name);
        texts_are_cut_at_the_first_mark(target, ' ', gap + name);
        assert(target + " "@ + gap + name =~= target.push(' ') + (gap + name));
    }
    let quoted = "\""@ + name + "\""@;
    texts_are_cut_at_the_first_mark(target, ' ', quoted);
    assert(target + " \""@ + name + "\""@ =~= target.push(' ') + quoted);
    trimming_keeps_the_text(none, quoted, none);
    assert(quoted.subrange(1, quoted.len() - 1) =~= name);
    let bare = seq!['"', '"'];
    texts_are_cut_at_the_first_mark(target, ' ', bare);
    assert(target + " \"\""@ =~= target.push(' ') + bare);
    trimming_keeps_the_text(none, bare, none);
    assert(bare.subrange(1, 1) =~= none);
}

/// To give a name asks the table for just that: the token of the entry that is meant, and the name
/// as it was typed. A name that an entry has is refused, and so is what refers to no entry.
pub proof fn alias_names_the_entry(
    s: Session,
    target: Seq<char>,
    given: Seq<char>,
    name: Seq<char>,
)
    requires
        s.pending is Idle,
        s.entries.len() <= usize::MAX,
        target.len() > 0,
        !target.contains(' '),
        !is_space(target[0]),
        ({
            ||| given == name && is_tight(name) && name[0] != '"'
            ||| given == "\""@ + name + "\""@ && name.len() > 0
        }),
    ensures
        ({
            let step = on_line(s, "alias "@ + target + " "@ + given);
            match resolved(s.entries, target) {
                Some(i) => {
                    &&& 0 <= i < s.entries.len()
                    &&& !has_alias(s.entries, name) ==> step == (Step {
                        session: Session {
                            pending: Pending::AliasChanged { index: i as usize, alias: Some(name) },
                            ..s
                        },
                        lines: seq![],
                        action: Action::SetAlias { token: s.entries[i].token, alias: Some(name) },
                    })
                    &&& has_alias(s.entries, name) ==> is_refused(step, s, name)
                },
                None => is_refused(step, s, target),
            }
        }),
{
    reveal_strlit("alias ");
    reveal_strlit("alias");
    reveal_strlit(" ");
    reveal_strlit("\"");
    reveal_strlit(" \"");
    lemma_words_of_commands();
    let arg = target + " "@ + given;
    assert(arg[0] == target[0] && arg.last() == given.last());
    lemma_typed("alias"@, arg);
    assert("alias "@ + target + " "@ + given =~= "alias"@ + " "@ + arg);
    aliases_read_back(target, Seq::empty(), name);
    if given != name {
        assert(arg =~= target + " \""@ + name + "\""@);
    } else if !(is_tight(name) && name[0] != '"') {
        assert(name.len() == name.len() + 2);
    }
    references_resolve_to_entries(s.entries, target);
    lemma_taken(s, name);
    lemma_not_found(s, target);
}

/// A reference alone asks the table to remove the name of its entry.
pub proof fn alias_removes_the_name(s: Session, target: Seq<char>)
    requires
        s.pending is Idle,
        s.entries.len() <= usize::MAX,
        is_tight(target),
        !target.contains(' '),
    ensures
        ({
            let step = on_line(s, "alias "@ + target);
            match resolved(s.entries, target) {
                Some(i) => 0 <= i < s.entries.len() && step == (Step {
                    session: Session {
                        pending: Pending::AliasChanged { index: i as usize, alias: None },
                        ..s
                    },
                    lines: seq![],
                    action: Action::SetAlias { token: s.entries[i].token, alias: None },
                }),
                None => is_refused(step, s, target),
            }
        }),
{
    reveal_strlit("alias ");
    reveal_strlit("alias");
    reveal_strlit(" ");
    lemma_words_of_commands();
    lemma_typed("alias"@, target);
    assert("alias "@ + target =~= "alias"@ + " "@ + target);
    aliases_read_back(target, Seq::empty(), target);
    references_resolve_to_entries(s.entries, target);
    lemma_not_found(s, target);
}

/// Once the table has done it, the entry has the name, or none, and all else is as it was.
pub proof fn names_change_where_they_were_asked_for(
    s: Session,
    index: usize,
    alias: Option<Seq<char>>,
)
    requires
        s.wf(),
        s.pending == (Pending::AliasChanged { index, alias }),
    ensures
        ({
            let step = on_event(s, Event::DbDone(Ok(())));
            let after = step.session.entries;
            &&& after.len() == s.entries.len()
            &&& forall|j: int|
                0 <= j < after.len() ==> {
                    &&& (#[trigger] after[j]).token == s.entries[j].token
                    &&& after[j].created_at == s.entries[j].created_at
                    &&& after[j].alias == (if j == index {
                        alias
                    } else {
                        s.entries[j].alias
                    })
                }
            &&& step.session.known == s.known
            &&& step.action is Prompt
            &&& step.lines.len() == 1 && step.lines[0].stream is Stdout
            &&& alias matches Some(a) ==> a.is_suffix_of(step.lines[0].text)
        }),
{
    if let Some(a) = alias {
        lemma_ends_with("alias set: "@, a);
    }
}

proof fn lemma_ends_with(a: Seq<char>, b: Seq<char>)
    ensures
        b.is_suffix_of(a + b),
{
    assert((a + b).subrange(a.len() as int, (a + b).len() as int) =~= b);
}

proof fn lemma_not_found(s: Session, arg: Seq<char>)
    ensures
        is_refused(done(s, seq![not_found_line(arg)]), s, arg),
{
    let text = not_found_line(arg).text;
    lemma_mentions("error: token not found: "@, arg, Seq::empty());
    reveal_strlit("error: ");
    reveal_strlit("error: token not found: ");
    assert(text.subrange(0, 7) =~= "error: "@);
}

// -- Deleting ---------------------------------------------------------------------------------

/// To delete asks the table for the token of the entry that is meant; what refers to no entry is
/// refused.
pub proof fn delete_asks_for_the_entry(s: Session, target: Seq<char>)
    requires
        s.pending is Idle,
        s.entries.len() <= usize::MAX,
        is_tight(target),
    ensures
        ({
            let step = on_line(s, "delete "@ + target);
            match resolved(s.entries, target) {
                Some(i) => 0 <= i < s.entries.len() && step == (Step {
                    session: Session { pending: Pending::Deleted { index: i as usize }, ..s },
                    lines: seq![],
                    action: Action::DeleteToken { token: s.entries[i].token },
                }),
                None => is_refused(step, s, target),
            }
        }),
{
    reveal_strlit("delete ");
    reveal_strlit("delete");
    reveal_strlit(" ");
    lemma_words_of_commands();
    lemma_typed("delete"@, target);
    assert("delete "@ + target =~= "delete"@ + " "@ + target);
    references_resolve_to_entries(s.entries, target);
    lemma_not_found(s, target);
}

/// Once the table has done it, that entry is gone, its token is no longer known, and all else is as
/// it was.
pub proof fn entries_are_deleted_where_they_were_asked_for(s: Session, index: usize)
    requires
        s.wf(),
        s.pending == (Pending::Deleted::<Seq<char>> { index }),
    ensures
        ({
            let step = on_event(s, Event::DbDone(Ok(())));
            let after = step.session.entries;
            &&& after.len() == s.entries.len() - 1
            &&& forall|j: int|
                0 <= j < after.len() ==> #[trigger] after[j] == s.entries[if j < index {
                    j
                } else {
                    j + 1
                }]
            &&& forall|t: Seq<char>| #[trigger]
                step.session.known.contains(t) <==> s.known.contains(t) && t
                    != s.entries[index as int].token
            &&& step.session.changed && step.session.pending is Idle
            &&& step.action is Prompt
            &&& step.lines.len() == 1 && step.lines[0].stream is Stdout
        }),
{
}

// -- Getting ----------------------------------------------------------------------------------

/// The step asks the network for the data behind a token, into a file or to be shown, with a second
/// more per chunk; what is no token is refused.
pub open spec fn asks_for(step: Step, s: Session, token: Seq<char>, output: Option<Seq<char>>) -> bool {
    match keys_in(token) {
        Some(keys) => {
            &&& step.session == Session { pending: Pending::Retrieved { token, output }, ..s }
            &&& step.action == (Action::Retrieve::<Seq<char>, Seq<u8>> {
                token,
                chunks: keys.len() as usize,
                timeout: if keys.len() < 570 {
                    (30 + keys.len()) as u64
                } else {
                    600
                },
                progress: output is Some,
            })
            &&& output is None ==> step.lines.len() == 0
            &&& output is Some ==> step.lines.len() == 1 && step.lines[0].stream is Stderr
                && contains_text(step.lines[0].text, decimal(keys.len()))
        },
        None => is_refused(step, s, "invalid token"@),
    }
}

proof fn lemma_retrieving(n: nat)
    ensures
        contains_text(retrieving_line(n).text, decimal(n)),
{
    let end = " chunks (timeout="@ + decimal(capped(30 + n)) + "s)..."@;
    lemma_mentions("retrieving "@, decimal(n), end);
    assert(retrieving_line(n).text =~= "retrieving "@ + decimal(n) + end);
}

proof fn lemma_no_token(s: Session, why: Seq<char>)
    ensures
        is_refused(done(s, seq![error_line("invalid token: "@ + why)]), s, "invalid token"@),
{
    let text = error_line("invalid token: "@ + why).text;
    prefixes_come_off("error: "@, "invalid token: "@ + why);
    assert("invalid token: "@ =~= "invalid token"@ + ": "@) by {
        reveal_strlit("invalid token");
        reveal_strlit("invalid token: ");
        reveal_strlit(": ");
    }
    lemma_mentions("error: "@, "invalid token"@, ": "@ + why);
    assert(text =~= "error: "@ + "invalid token"@ + (": "@ + why));
}

proof fn lemma_retrieve(s: Session, token: Seq<char>, output: Option<Seq<char>>)
    ensures
        asks_for(retrieve_step(s, token, output), s, token, output),
{
    match keys_in(token) {
        Some(keys) => {
            lemma_retrieving(keys.len());
        },
        None => {
            lemma_no_token(s, not_a_token());
        },
    }
}

/// To get asks for the token of the entry that is meant, and for what is typed where it means none.
pub proof fn get_asks_for_the_token(s: Session, target: Seq<char>)
    requires
        s.pending is Idle,
        is_tight(target),
        !"--file "@.is_prefix_of(target),
    ensures
        ({
            let step = on_line(s, "get "@ + target);
            match resolved(s.entries, target) {
                Some(i) => asks_for(step, s, s.entries[i].token, None),
                None => asks_for(step, s, target, None),
            }
        }),
{
    reveal_strlit("get ");
    reveal_strlit("get");
    reveal_strlit(" ");
    lemma_words_of_commands();
    lemma_typed("get"@, target);
    assert("get "@ + target =~= "get"@ + " "@ + target);
    lemma_retrieve(s, referenced(s.entries, target), None);
}

/// To get into a file asks for the same: the last word is the path, and what stands before it the
/// reference, blanks in it included.
pub proof fn get_asks_for_the_token_and_keeps_the_path(
    s: Session,
    gap: Seq<char>,
    target: Seq<char>,
    path: Seq<char>,
)
    requires
        s.pending is Idle,
        is_blank(gap),
        is_tight(target),
        is_tight(path),
        !path.contains(' '),
    ensures
        ({
            let step = on_line(s, "get --file "@ + gap + target + " "@ + path);
            match resolved(s.entries, target) {
                Some(i) => asks_for(step, s, s.entries[i].token, Some(path)),
                None => asks_for(step, s, target, Some(path)),
            }
        }),
{
    reveal_strlit("get --file ");
    reveal_strlit("--file ");
    reveal_strlit("get");
    reveal_strlit(" ");
    lemma_words_of_commands();
    let rest = target + " "@ + path;
    let arg = "--file "@ + (gap + rest);
    assert(rest[0] == target[0] && rest.last() == path.last());
    assert(arg[0] == '-' && arg.last() == path.last());
    lemma_typed("get"@, arg);
    assert("get --file "@ + gap + target + " "@ + path =~= "get"@ + " "@ + arg);
    prefixes_come_off("--file "@, gap + rest);
    trimming_keeps_the_text(gap, rest, Seq::empty());
    assert(gap + rest + Seq::<char>::empty() =~= gap + rest);
    texts_are_cut_at_the_last_mark(target, ' ', path);
    assert(rest =~= target.push(' ') + path);
    lemma_retrieve(s, referenced(s.entries, target), Some(path));
}

/// Without a path, to get into a file is refused.
pub proof fn get_into_a_file_needs_a_path(s: Session, word: Seq<char>)
    requires
        s.pending is Idle,
        is_tight(word),
        !word.contains(' '),
    ensures
        is_refused(on_line(s, "get --file "@ + word), s, "usage: get --file"@),
{
    reveal_strlit("get --file ");
    reveal_strlit("--file ");
    reveal_strlit("get");
    reveal_strlit(" ");
    lemma_words_of_commands();
    let arg = "--file "@ + word;
    assert(arg[0] == '-' && arg.last() == word.last());
    lemma_typed("get"@, arg);
    assert("get --file "@ + word =~= "get"@ + " "@ + arg);
    prefixes_come_off("--file "@, word);
    trimming_keeps_the_text(Seq::empty(), word, Seq::empty());
    texts_are_cut_at_the_last_mark(word, ' ', word);
    let usage = "usage: get --file <token|index|alias> <output>"@;
    let end = " <token|index|alias> <output>"@;
    assert(usage =~= "usage: get --file"@ + end) by {
        reveal_strlit("usage: get --file <token|index|alias> <output>");
        reveal_strlit("usage: get --file");
        reveal_strlit(" <token|index|alias> <output>");
    }
    prefixes_come_off("error: "@, usage);
    lemma_mentions("error: "@, "usage: get --file"@, end);
    assert("error: "@ + usage =~= "error: "@ + "usage: get --file"@ + end);
}

// -- Remembering ------------------------------------------------------------------------------

/// The step has the token remembered: a new one is added to the table under the name, a known one
/// only gets the name, if there is one.
pub open spec fn remembers(step: Step, s: Session, token: Seq<char>, alias: Option<Seq<char>>) -> bool {
    if !s.known.contains(token) {
        &&& step.session == Session { pending: Pending::TokenInserted { token, alias }, ..s }
        &&& step.action == (Action::InsertToken::<Seq<char>, Seq<u8>> { token, alias })
    } else {
        match alias {
            Some(a) => {
                &&& step.session == Session { pending: Pending::AliasSaved { token, alias: a }, ..s }
                &&& step.action == (Action::SetAlias::<Seq<char>, Seq<u8>> { token, alias })
            },
            None => step.session == (Session { pending: Pending::Idle, ..s })
                && step.action is Prompt,
        }
    }
}

/// When data is stored, its token is shown and remembered under the name that was given.
pub proof fn stored_tokens_are_shown_and_remembered(
    s: Session,
    alias: Option<Seq<char>>,
    edited: bool,
    token: Seq<char>,
    elapsed: Seq<char>,
)
    requires
        s.pending == (Pending::Stored { alias, edited }),
    ensures
        ({
            let step = on_event(s, Event::Stored { result: Ok(token), elapsed });
            &&& remembers(step, s, token, alias)
            &&& step.lines.len() > 0
            &&& step.lines.last().stream is Stdout && step.lines.last().text == token
            &&& edited ==> step.lines.len() == 1
            &&& !edited ==> step.lines.len() == 2 && step.lines[0].stream is Stderr
                && contains_text(step.lines[0].text, elapsed)
        }),
{
    lemma_mentions("store succeeded in "@, elapsed, "s"@);
}

/// What takes too long is told as that, on the stream for errors, and changes nothing.
pub proof fn timeouts_are_told(s: Session, elapsed: Seq<char>)
    ensures
        s.pending is Stored ==> is_refused(
            on_event(s, Event::Stored { result: Err(NetFailure::TimedOut), elapsed }),
            s,
            "timed out"@,
        ),
        s.pending is Retrieved ==> is_refused(
            on_event(s, Event::Retrieved(Err(NetFailure::TimedOut))),
            s,
            "timed out"@,
        ),
{
    let none = Seq::<char>::empty();
    let end = " (after "@ + elapsed + "s)"@;
    assert("error: store timed out"@ =~= "error: "@ + "store "@ + "timed out"@ && "error: "@.len()
        == 7) by {
        reveal_strlit("error: store timed out");
        reveal_strlit("error: ");
        reveal_strlit("store ");
        reveal_strlit("timed out");
    }
    assert("error: retrieve timed out"@ =~= "error: "@ + "retrieve "@ + "timed out"@) by {
        reveal_strlit("error: retrieve timed out");
        reveal_strlit("error: ");
        reveal_strlit("retrieve ");
        reveal_strlit("timed out");
    }
    lemma_mentions("error: "@ + "store "@, "timed out"@, end);
    lemma_mentions("error: "@ + "retrieve "@, "timed out"@, none);
    let long = "error: store timed out"@ + " (after "@ + elapsed + "s)"@;
    assert(long =~= "error: "@ + "store "@ + "timed out"@ + end);
    prefixes_come_off("error: "@, "store "@ + "timed out"@);
    prefixes_come_off("error: "@, "store "@ + "timed out"@ + end);
    prefixes_come_off("error: "@, "retrieve "@ + "timed out"@);
    assert("error: "@ + ("store "@ + "timed out"@) =~= "error: "@ + "store "@ + "timed out"@);
    assert("error: "@ + ("store "@ + "timed out"@ + end) =~= long);
    assert("error: "@ + ("retrieve "@ + "timed out"@) =~= "error: "@ + "retrieve "@
        + "timed out"@);
}

/// Data that was asked for is shown as its text, and its token is remembered.
pub proof fn retrieved_data_is_shown(s: Session, token: Seq<char>, data: Seq<u8>)
    requires
        s.pending == (Pending::Retrieved { token, output: None::<Seq<char>> }),
    ensures
        ({
            let step = on_event(s, Event::Retrieved(Ok(data)));
            &&& remembers(step, s, token, None)
            &&& step.lines.len() == 1 && step.lines[0].stream is Stdout
            &&& valid_utf8(data) ==> encode_utf8(step.lines[0].text) == data
            &&& !valid_utf8(data) ==> step.lines[0].text == lossy_decoding(data)
        }),
{
    if valid_utf8(data) {
        decode_utf8_encode_utf8(data);
    }
}

/// Data that was asked for into a file is written there as it is, and then the size and the path are
/// told and the token is remembered.
pub proof fn retrieved_data_is_written(
    s: Session,
    token: Seq<char>,
    path: Seq<char>,
    data: Seq<u8>,
)
    requires
        s.pending == (Pending::Retrieved { token, output: Some(path) }),
        data.len() <= usize::MAX,
    ensures
        ({
            let step = on_event(s, Event::Retrieved(Ok(data)));
            let written = on_event(step.session, Event::FileWritten(Ok(())));
            &&& step.action == (Action::WriteFile::<Seq<char>, Seq<u8>> { path, data })
            &&& step.lines.len() == 0
            &&& step.session == (Session { pending: step.session.pending, ..s })
            &&& step.session.pending is FileWritten
            &&& remembers(written, s, token, None)
            &&& written.lines.len() == 1 && written.lines[0].stream is Stderr
            &&& contains_text(written.lines[0].text, decimal(data.len()))
            &&& path.is_suffix_of(written.lines[0].text)
        }),
{
    let n = decimal(data.len());
    let text = "wrote "@ + n + " bytes to "@ + path;
    lemma_mentions("wrote "@, n, " bytes to "@ + path);
    assert(text =~= "wrote "@ + n + (" bytes to "@ + path));
    lemma_ends_with("wrote "@ + n + " bytes to "@, path);
}

/// A new token is read back from the table, and then stands behind the other entries, under its name
/// and with the time that was read; it is known from then on.
pub proof fn inserted_tokens_become_entries(
    s: Session,
    token: Seq<char>,
    alias: Option<Seq<char>>,
    created_at: Seq<char>,
)
    requires
        s.pending == (Pending::TokenInserted { token, alias }),
    ensures
        ({
            let step = on_event(s, Event::DbDone(Ok(())));
            let end = on_event(step.session, Event::CreatedAt(Ok(created_at)));
            &&& step.action == (Action::ReadCreatedAt::<Seq<char>, Seq<u8>> { token })
            &&& step.lines.len() == 0
            &&& step.session.pending is CreatedAtRead
            &&& end.session.entries == s.entries + seq![Entry { token, alias, created_at }]
            &&& forall|t: Seq<char>| #[trigger]
                end.session.known.contains(t) <==> s.known.contains(t) || t == token
            &&& end.session.changed && end.session.pending is Idle && end.session.key == s.key
            &&& end.action is Prompt && end.lines.len() == 0
        }),
{
    let step = on_event(s, Event::DbDone(Ok(())));
    let end = on_event(step.session, Event::CreatedAt(Ok(created_at)));
    assert(end.session.entries =~= s.entries + seq![Entry { token, alias, created_at }]);
}

/// A known token gets its new name where it first stands, and all else is as it was.
pub proof fn known_tokens_get_their_names(s: Session, token: Seq<char>, alias: Seq<char>, i: int)
    requires
        s.pending == (Pending::AliasSaved { token, alias }),
        0 <= i < s.entries.len(),
        s.entries[i].token == token,
        forall|j: int| 0 <= j < i ==> (#[trigger] s.entries[j]).token != token,
    ensures
        ({
            let step = on_event(s, Event::DbDone(Ok(())));
            let after = step.session.entries;
            &&& after.len() == s.entries.len()
            &&& after[i] == (Entry { alias: Some(alias), ..s.entries[i] })
            &&& forall|j: int| 0 <= j < after.len() && j != i ==> #[trigger] after[j] == s.entries[j]
            &&& step.session.known == s.known && step.session.changed
            &&& step.action is Prompt && step.session.pending is Idle && step.lines.len() == 0
        }),
{
    lemma_find_where(s.entries, with_token(token), i);
}

/// The reason that an event gives for a failure.
pub open spec fn reason_of(e: Event<Seq<char>, Seq<u8>>) -> Option<Seq<char>> {
    match e {
        Event::FileRead(Err(why)) => Some(why),
        Event::Stored { result: Err(NetFailure::Failed(why)), elapsed } => Some(why),
        Event::Retrieved(Err(NetFailure::Failed(why))) => Some(why),
        Event::FileWritten(Err(why)) => Some(why),
        Event::Edited(Err(why)) => Some(why),
        Event::DbDone(Err(why)) => Some(why),
        Event::CreatedAt(Err(why)) => Some(why),
        _ => None,
    }
}

/// A failure is told with its reason, on the stream for errors.
pub proof fn failures_are_told(s: Session, e: Event<Seq<char>, Seq<u8>>)
    requires
        awaited(s.pending, e),
        reason_of(e) is Some,
    ensures
        ends_with_one_line(on_event(s, e), s),
        on_event(s, e).lines[0].stream is Stderr,
        contains_text(on_event(s, e).lines[0].text, reason_of(e)->0),
{
    let why = reason_of(e)->0;
    lemma_mentions("error: "@, why, Seq::empty());
    lemma_mentions("warning: failed to set alias: "@, why, Seq::empty());
    lemma_mentions("warning: failed to save token: "@, why, Seq::empty());
    lemma_mentions("warning: token saved but failed to read back: "@, why, Seq::empty());
    if let Event::Stored { result, elapsed } = e {
        let end = " (after "@ + elapsed + "s)"@;
        lemma_mentions("error: "@, why, end);
        assert("error: "@ + why + " (after "@ + elapsed + "s)"@ =~= "error: "@ + why + end);
    }
}

// -- The rest ---------------------------------------------------------------------------------

/// What the node says of itself is shown, with its key and the number of entries, each fact at the
/// end of a line of its own.
pub proof fn info_shows_the_node(
    s: Session,
    node_id: Seq<char>,
    local_addr: Seq<char>,
    peers: usize,
)
    requires
        s.pending is Idle,
    ensures
        on_line(s, "info"@) == (Step {
            session: Session { pending: Pending::Info, ..s },
            lines: seq![],
            action: Action::ReadInfo,
        }),
        ({
            let asked = on_line(s, "info"@).session;
            let step = on_event(asked, Event::Info { node_id, local_addr, peers });
            let facts = seq![
                node_id,
                s.key,
                local_addr,
                decimal(peers as nat),
                decimal(s.entries.len()),
            ];
            &&& step.session == s
            &&& step.action is Prompt
            &&& step.lines.len() == 5
            &&& forall|k: int|
                0 <= k < 5 ==> (#[trigger] step.lines[k]).stream is Stdout && facts[k].is_suffix_of(
                    step.lines[k].text,
                )
        }),
{
    lemma_words_of_commands();
    lemma_typed("info"@, "info"@);
    lemma_ends_with("  node id    : "@, node_id);
    lemma_ends_with("  public key : "@, s.key);
    lemma_ends_with("  listening  : "@, local_addr);
    lemma_ends_with("  peers      : "@, decimal(peers as nat));
    lemma_ends_with("  tokens     : "@, decimal(s.entries.len()));
    let asked = on_line(s, "info"@).session;
    assert(on_event(asked, Event::Info { node_id, local_addr, peers }).session =~= s);
}

/// A command that needs an argument and has none says how it is used; a line of white space does
/// nothing.
pub proof fn bare_commands_say_how_they_are_used(s: Session, blank: Seq<char>)
    requires
        s.pending is Idle,
        is_blank(blank),
    ensures
        on_line(s, blank) == (Step { session: s, lines: seq![], action: Action::Prompt }),
        ({
            let steps = seq![
                on_line(s, "put"@),
                on_line(s, "get"@),
                on_line(s, "delete"@),
                on_line(s, "alias"@),
            ];
            forall|k: int|
                0 <= k < 4 ==> ends_with_one_line(#[trigger] steps[k], s)
                    && steps[k].lines[0].stream is Stdout && "usage: "@.is_prefix_of(
                    steps[k].lines[0].text,
                )
        }),
{
    only_white_space_is_trimmed_away(blank);
    lemma_words_of_commands();
    lemma_typed("put"@, "put"@);
    lemma_typed("get"@, "put"@);
    lemma_typed("delete"@, "put"@);
    lemma_typed("alias"@, "put"@);
    reveal_strlit("");
    reveal_strlit("--name ");
    reveal_strlit("--file ");
    assert(!"--name "@.is_prefix_of(""@));
    assert(!"--file "@.is_prefix_of(""@));
    reveal_strlit("usage: ");
    reveal_strlit("usage: put [--name <alias>] [--file <path> | <content>]");
    reveal_strlit("usage: get [--file <token|index|alias> <output>] | <token|index|alias>");
    reveal_strlit("usage: delete <token|index|alias>");
    reveal_strlit("usage: alias <token|index> [name]");
    assert("usage: put [--name <alias>] [--file <path> | <content>]"@.subrange(0, 7)
        =~= "usage: "@);
    assert("usage: get [--file <token|index|alias> <output>] | <token|index|alias>"@.subrange(0, 7)
        =~= "usage: "@);
    assert("usage: delete <token|index|alias>"@.subrange(0, 7) =~= "usage: "@);
    assert("usage: alias <token|index> [name]"@.subrange(0, 7) =~= "usage: "@);
    assert(on_line(s, blank).session =~= s);
}

/// The words that are commands.
pub open spec fn is_command(w: Seq<char>) -> bool {
    ||| w == "put"@
    ||| w == "get"@
    ||| w == "delete"@
    ||| w == "alias"@
    ||| w == "info"@
    ||| w == "list"@
    ||| w == "edit"@
    ||| w == "help"@
    ||| w == "?"@
    ||| w == "exit"@
    ||| w == "bye"@
}

/// A line that starts with something else is answered with that, and does nothing.
pub proof fn other_words_are_no_commands(s: Session, w: Seq<char>, arg: Seq<char>)
    requires
        s.pending is Idle,
        is_tight(w),
        !w.contains(' '),
        is_tight(arg),
        !is_command(w),
    ensures
        ({
            let step = on_line(s, w + " "@ + arg);
            &&& ends_with_one_line(step, s)
            &&& step.lines[0].stream is Stdout
            &&& ("unknown command: "@ + w).is_prefix_of(step.lines[0].text)
            &&& on_line(s, w) == step
        }),
{
    let none = Seq::<char>::empty();
    lines_are_read_past_white_space(none, w, none, arg, none);
    assert(none + (w + " "@ + none + arg) + none =~= w + " "@ + arg);
    assert(none + w + none =~= w);
    let head = "unknown command: "@ + w;
    prefixes_come_off(head, ". try 'help' for a list of commands"@);
}

/// Help is shown for `help` and `?`, and `exit` and `bye` leave the shell; what follows them does
/// not matter.
pub proof fn help_is_shown_and_the_shell_is_left(s: Session, arg: Seq<char>)
    requires
        s.pending is Idle,
        is_tight(arg),
    ensures
        on_line(s, "help"@) == on_line(s, "?"@),
        on_line(s, "help "@ + arg) == on_line(s, "help"@),
        on_line(s, "? "@ + arg) == on_line(s, "help"@),
        on_line(s, "help"@).session == s,
        on_line(s, "help"@).action is Prompt,
        on_line(s, "help"@).lines.len() > 0,
        on_line(s, "exit"@) == (Step { session: s, lines: seq![], action: Action::Quit }),
        on_line(s, "bye"@) == on_line(s, "exit"@),
        on_line(s, "exit "@ + arg) == on_line(s, "exit"@),
        on_line(s, "bye "@ + arg) == on_line(s, "exit"@),
{
    lemma_words_of_commands();
    reveal_strlit("help");
    reveal_strlit("help ");
    reveal_strlit("?");
    reveal_strlit("? ");
    reveal_strlit("exit");
    reveal_strlit("exit ");
    reveal_strlit("bye");
    reveal_strlit("bye ");
    reveal_strlit(" ");
    lemma_typed("help"@, arg);
    lemma_typed("?"@, arg);
    lemma_typed("exit"@, arg);
    lemma_typed("bye"@, arg);
    assert("help "@ + arg =~= "help"@ + " "@ + arg);
    assert("? "@ + arg =~= "?"@ + " "@ + arg);
    assert("exit "@ + arg =~= "exit"@ + " "@ + arg);
    assert("bye "@ + arg =~= "bye"@ + " "@ + arg);
    assert(on_line(s, "help"@).session =~= s);
    assert(on_line(s, "exit"@).session =~= s);
}

/// White space around a line and between its parts changes nothing.
pub proof fn white_space_around_does_not_matter(
    s: Session,
    a: Seq<char>,
    cmd: Seq<char>,
    gap: Seq<char>,
    arg: Seq<char>,
    b: Seq<char>,
)
    requires
        is_blank(a),
        is_blank(gap),
        is_blank(b),
        is_tight(cmd),
        !cmd.contains(' '),
        is_tight(arg),
    ensures
        on_line(s, a + (cmd + " "@ + gap + arg) + b) == on_line(s, cmd + " "@ + arg),
        on_line(s, a + cmd + b) == on_line(s, cmd),
{
    let none = Seq::<char>::empty();
    lines_are_read_past_white_space(a, cmd, gap, arg, b);
    lines_are_read_past_white_space(none, cmd, none, arg, none);
    assert(none + (cmd + " "@ + none + arg) + none =~= cmd + " "@ + arg);
    assert(none + cmd + none =~= cmd);
}

/// The event answers the action.
pub open spec fn answers(
    e: Event<Seq<char>, Seq<u8>>,
    action: Action<Seq<char>, Seq<u8>>,
) -> bool {
    match action {
        Action::Prompt => false,
        Action::Quit => false,
        Action::ReadFile { path } => e is FileRead,
        Action::Store { data, blocks, timeout, progress } => e is Stored,
        Action::Retrieve { token, chunks, timeout, progress } => e is Retrieved,
        Action::WriteFile { path, data } => e is FileWritten,
        Action::RunEditor => e is Edited,
        Action::ReadInfo => e is Info,
        Action::ReadCreatedAt { token } => e is CreatedAt,
        Action::SetAlias { token, alias } => e is DbDone,
        Action::InsertToken { token, alias } => e is DbDone,
        Action::DeleteToken { token } => e is DbDone,
    }
}

/// What is awaited after a line is the answer to its action, and nothing else.
pub proof fn answers_to_commands_are_awaited(
    s: Session,
    line: Seq<char>,
    next: Event<Seq<char>, Seq<u8>>,
)
    ensures
        awaited(on_line(s, line).session.pending, next) == answers(next, on_line(s, line).action),
{
    let (cmd, arg) = command_of(line);
    lemma_answers(put_step(s, arg), next);
    lemma_answers(get_step(s, arg), next);
    lemma_answers(delete_step(s, arg), next);
    lemma_answers(alias_step(s, arg), next);
    lemma_answers(edit_step(s, arg), next);
}

/// What is awaited after an event is the answer to the next action, and nothing else.
pub proof fn answers_to_events_are_awaited(
    s: Session,
    e: Event<Seq<char>, Seq<u8>>,
    next: Event<Seq<char>, Seq<u8>>,
)
    requires
        awaited(s.pending, e),
    ensures
        awaited(on_event(s, e).session.pending, next) == answers(next, on_event(s, e).action),
{
    lemma_answers(on_event(s, e), next);
}

/// What a step waits for and what it asks for go together.
spec fn fits(step: Step) -> bool {
    match step.action {
        Action::Prompt => step.session.pending is Idle,
        Action::Quit => step.session.pending is Idle,
        Action::ReadFile { path } => step.session.pending is FileRead,
        Action::Store { data, blocks, timeout, progress } => step.session.pending is Stored,
        Action::Retrieve { token, chunks, timeout, progress } => step.session.pending is Retrieved,
        Action::WriteFile { path, data } => step.session.pending is FileWritten,
        Action::RunEditor => step.session.pending is Edited,
        Action::ReadInfo => step.session.pending is Info,
        Action::ReadCreatedAt { token } => step.session.pending is CreatedAtRead,
        Action::SetAlias { token, alias } => step.session.pending is AliasSaved
            || step.session.pending is AliasChanged,
        Action::InsertToken { token, alias } => step.session.pending is TokenInserted,
        Action::DeleteToken { token } => step.session.pending is Deleted,
    }
}

proof fn lemma_answers(step: Step, next: Event<Seq<char>, Seq<u8>>)
    ensures
        fits(step) ==> awaited(step.session.pending, next) == answers(next, step.action),
{
}

/// An idle shell takes every line, as long as the times of its entries can be cut to the minute.
pub proof fn idle_shells_take_every_line(s: Session, line: Seq<char>)
    requires
        s.pending is Idle,
        forall|i: int| 0 <= i < s.entries.len() ==> can_stamp((#[trigger] s.entries[i]).created_at),
    ensures
        takes(s, line),
{
    let (cmd, arg) = command_of(line);
    let folded = folded_aliases(s.entries);
    let all = passing(folded, folded_filter(arg));
    let shown = last_of(all, list_limit(arg));
    listings_are_complete_and_ordered(folded, folded_filter(arg));
    assert forall|k: int| 0 <= k < shown.len() implies can_stamp(
        s.entries[#[trigger] shown[k]].created_at,
    ) by {
        assert(all.contains(shown[k])) by {
            if shown.len() < all.len() {
                assert(all[k + all.len() - shown.len()] == shown[k]);
            }
        }
        assert(can_stamp(s.entries[shown[k]].created_at));
    }
}

// -- Listing ----------------------------------------------------------------------------------

/// A filter lets through the entries whose folded name holds it, wherever it stands in the name,
/// and no others; without a filter all pass.
pub proof fn filters_look_anywhere_in_a_name(
    a: Seq<char>,
    f: Seq<char>,
    b: Seq<char>,
    name: Seq<char>,
)
    ensures
        passes(Some(a + f + b), Some(f)),
        passes(Some(name), Some(f)) <==> exists|x: Seq<char>, y: Seq<char>|
            name == #[trigger] (x + f + y),
        !passes(None, Some(f)),
        passes(Some(name), None),
        passes(None, None),
{
    texts_are_found_anywhere(name, a, f, b);
}

/// The positions of the entries whose names hold the filter, in whatever case it is typed.
pub open spec fn holds_filter(list: Seq<Entry>, filter: Option<Seq<char>>) -> spec_fn(int) -> bool {
    |i: int|
        match filter {
            Some(f) => list[i].alias is Some && exists|x: Seq<char>, y: Seq<char>|
                lowercase(list[i].alias->0) == #[trigger] (x + lowercase(f) + y),
            None => true,
        }
}

/// The positions that a listing is to show: those that hold the filter, or the last `limit` of them.
pub open spec fn to_be_shown(
    list: Seq<Entry>,
    filter: Option<Seq<char>>,
    limit: Option<nat>,
) -> Seq<int> {
    let all = Seq::new(list.len(), |i: int| i).filter(holds_filter(list, filter));
    match limit {
        Some(n) if n < all.len() => all.subrange(all.len() - n, all.len() as int),
        _ => all,
    }
}

/// The step shows these entries, each on a line of its own: its number, its time, and its name or
/// the start of its token. The lines are in the order of the entries.
pub open spec fn shows_entries(
    step: Step,
    s: Session,
    filter: Option<Seq<char>>,
    limit: Option<nat>,
) -> bool {
    let shown = to_be_shown(s.entries, filter, limit);
    &&& step.session == s
    &&& step.action is Prompt
    &&& s.entries.len() == 0 ==> step.lines == seq![
        Line { stream: Stream::Stdout, text: "(no tokens stored)"@ },
    ]
    &&& s.entries.len() > 0 && shown.len() == 0 ==> step.lines == seq![
        Line { stream: Stream::Stdout, text: "(no matches)"@ },
    ]
    &&& s.entries.len() > 0 && shown.len() > 0 ==> step.lines.len() == shown.len() && forall|k: int|
        0 <= k < shown.len() ==> {
            let e = s.entries[shown[k]];
            let head = "  "@ + decimal((shown[k] + 1) as nat) + ": ["@ + stamp(e.created_at)
                + "] "@;
            &&& (#[trigger] step.lines[k]).stream is Stdout
            &&& e.alias is Some ==> step.lines[k].text == head + e.alias->0
            &&& e.alias is None && e.token.len() <= 40 ==> step.lines[k].text == head + e.token
            &&& e.alias is None && e.token.len() > 40 ==> step.lines[k].text == head
                + e.token.take(40) + "..."@
        }
}

proof fn lemma_passing(
    folded: Seq<Option<Seq<char>>>,
    filter: Option<Seq<char>>,
    p: spec_fn(int) -> bool,
)
    requires
        forall|i: int| 0 <= i < folded.len() ==> passes(#[trigger] folded[i], filter) == p(i),
    ensures
        passing(folded, filter) == Seq::new(folded.len(), |i: int| i).filter(p),
    decreases folded.len(),
{
    reveal(Seq::filter);
    let all = Seq::new(folded.len(), |i: int| i);
    if folded.len() > 0 {
        let front = folded.drop_last();
        assert forall|i: int| 0 <= i < front.len() implies passes(#[trigger] front[i], filter) == p(
            i,
        ) by {
            assert(front[i] == folded[i]);
        }
        lemma_passing(front, filter, p);
        assert(all.drop_last() =~= Seq::new(front.len(), |i: int| i));
        assert(all.last() == folded.len() - 1);
        assert(passes(folded[folded.len() - 1], filter) == p(folded.len() - 1));
    }
}

proof fn lemma_shown(list: Seq<Entry>, filter: Option<Seq<char>>, limit: Option<nat>)
    ensures
        ({
            let lower = match filter {
                Some(f) => Some(lowercase(f)),
                None => None,
            };
            last_of(passing(folded_aliases(list), lower), limit) == to_be_shown(list, filter, limit)
        }),
{
    let lower = match filter {
        Some(f) => Some(lowercase(f)),
        None => None,
    };
    let folded = folded_aliases(list);
    let p = holds_filter(list, filter);
    assert forall|i: int| 0 <= i < folded.len() implies passes(#[trigger] folded[i], lower) == p(
        i,
    ) by {
        if let (Some(f), Some(a)) = (filter, list[i].alias) {
            texts_are_found_anywhere(lowercase(a), f, lowercase(f), f);
        }
    }
    lemma_passing(folded, lower, p);
    let all = passing(folded, lower);
    if let Some(n) = limit {
        if n < all.len() {
            assert(all.skip(all.len() - n) =~= all.subrange(all.len() - n, all.len() as int));
        }
    }
}

proof fn lemma_list(s: Session, arg: Seq<char>)
    requires
        s.pending is Idle,
    ensures
        shows_entries(list_step(s, arg), s, list_filter(arg), list_limit(arg)),
{
    let filter = list_filter(arg);
    let limit = list_limit(arg);
    let step = list_step(s, arg);
    let shown = to_be_shown(s.entries, filter, limit);
    lemma_shown(s.entries, filter, limit);
    assert(step.session =~= s);
    if s.entries.len() > 0 && shown.len() > 0 {
        assert forall|k: int| 0 <= k < shown.len() implies ({
            let e = s.entries[shown[k]];
            let head = "  "@ + decimal((shown[k] + 1) as nat) + ": ["@ + stamp(e.created_at)
                + "] "@;
            &&& (#[trigger] step.lines[k]).stream is Stdout
            &&& e.alias is Some ==> step.lines[k].text == head + e.alias->0
            &&& e.alias is None && e.token.len() <= 40 ==> step.lines[k].text == head + e.token
            &&& e.alias is None && e.token.len() > 40 ==> step.lines[k].text == head
                + e.token.take(40) + "..."@
        }) by {
            let e = s.entries[shown[k]];
            let head = "  "@ + decimal((shown[k] + 1) as nat) + ": ["@ + stamp(e.created_at)
                + "] "@;
            assert(step.lines[k] == entry_line(s.entries, shown[k]));
            assert(head + (e.token.take(40) + "..."@) =~= head + e.token.take(40) + "..."@);
        }
    }
}

/// To list shows every entry.
pub proof fn list_shows_all_entries(s: Session)
    requires
        s.pending is Idle,
    ensures
        shows_entries(on_line(s, "list"@), s, None, None),
{
    lemma_words_of_commands();
    lemma_typed("list"@, "list"@);
    lemma_list(s, ""@);
    reveal_strlit("");
    typed_filters_read_back(Seq::empty());
    assert(""@ =~= joined(Seq::<Seq<char>>::empty(), " "@));
}

/// To list with some words shows the entries whose names hold these words.
pub proof fn list_shows_the_entries_that_hold_the_filter(s: Session, list: Seq<Seq<char>>)
    requires
        s.pending is Idle,
        list.len() > 0,
        forall|i: int|
            0 <= i < list.len() ==> is_word(#[trigger] list[i]) && list[i] != "-n"@ && list[i]
                != "--last"@,
    ensures
        shows_entries(
            on_line(s, "list "@ + joined(list, " "@)),
            s,
            Some(joined(list, " "@)),
            None,
        ),
{
    let arg = joined(list, " "@);
    lemma_words_of_commands();
    lemma_joined_is_tight(list);
    lemma_typed("list"@, arg);
    reveal_strlit("list");
    reveal_strlit("list ");
    reveal_strlit(" ");
    assert("list "@ + arg =~= "list"@ + " "@ + arg);
    typed_filters_read_back(list);
    lemma_list(s, arg);
}

/// To list with a limit, before, behind or among such words, shows the last of these entries.
pub proof fn list_shows_the_last_entries(
    s: Session,
    before: Seq<Seq<char>>,
    flag: Seq<char>,
    n: nat,
    after: Seq<Seq<char>>,
)
    requires
        s.pending is Idle,
        n <= usize::MAX,
        flag == "-n"@ || flag == "--last"@,
        forall|i: int|
            0 <= i < before.len() ==> is_word(#[trigger] before[i]) && before[i] != "-n"@
                && before[i] != "--last"@,
        forall|i: int|
            0 <= i < after.len() ==> is_word(#[trigger] after[i]) && after[i] != "-n"@ && after[i]
                != "--last"@,
    ensures
        shows_entries(
            on_line(s, "list "@ + joined(before + seq![flag, decimal(n)] + after, " "@)),
            s,
            if before.len() + after.len() == 0 {
                None
            } else {
                Some(joined(before + after, " "@))
            },
            Some(n),
        ),
{
    let all = before + seq![flag, decimal(n)] + after;
    let arg = joined(all, " "@);
    lemma_words_of_commands();
    typed_limits_stand_anywhere(before, after, flag, n);
    lemma_decimal(n);
    reveal_strlit("-n");
    reveal_strlit("--last");
    assert(is_word(flag));
    assert forall|i: int| 0 <= i < all.len() implies is_word(#[trigger] all[i]) by {
        if i < before.len() {
            assert(all[i] == before[i]);
        } else if i == before.len() {
            assert(all[i] == flag);
        } else if i == before.len() + 1 {
            assert(all[i] == decimal(n));
            assert forall|j: int| 0 <= j < decimal(n).len() implies !is_space(
                #[trigger] decimal(n)[j],
            ) by {
                assert(is_digit(decimal(n)[j]));
            }
        } else {
            assert(all[i] == after[i - before.len() - 2]);
        }
    }
    lemma_joined_is_tight(all);
    lemma_typed("list"@, arg);
    reveal_strlit("list");
    reveal_strlit("list ");
    reveal_strlit(" ");
    assert("list "@ + arg =~= "list"@ + " "@ + arg);
    lemma_list(s, arg);
}

proof fn lemma_joined_is_tight(list: Seq<Seq<char>>)
    requires
        list.len() > 0,
        forall|i: int| 0 <= i < list.len() ==> is_word(#[trigger] list[i]),
    ensures
        is_tight(joined(list, " "@)),
    decreases list.len(),
{
    let s = joined(list, " "@);
    let last = list[list.len() - 1];
    assert(is_word(last) && !is_space(last[last.len() - 1]));
    assert(is_word(list[0]) && !is_space(list[0][0]));
    if list.len() > 1 {
        let front = list.drop_last();
        assert forall|i: int| 0 <= i < front.len() implies is_word(#[trigger] front[i]) by {
            assert(front[i] == list[i]);
        }
        lemma_joined_is_tight(front);
        assert(s[0] == joined(front, " "@)[0]);
        assert(s.last() == last.last());
    }
}

/// The time of an entry is shown to the minute: the seconds behind it are left out, and a shorter
/// text is shown whole.
pub proof fn times_are_shown_to_the_minute(minute: Seq<char>, rest: Seq<char>)
    requires
        minute.len() == 16,
        is_ascii_chars(minute),
    ensures
        stamp(minute + rest) == minute,
        can_stamp(minute + rest),
        encode_utf8(rest).len() < 16 ==> stamp(rest) == rest,
{
    let b = encode_utf8(minute + rest);
    lemma_bytes_in_a_row(minute, rest);
    is_ascii_chars_encode_utf8(minute);
    assert(b.take(16) =~= encode_utf8(minute));
    encode_utf8_decode_utf8(minute);
    encode_utf8_valid_utf8(minute);
    encode_utf8_valid_utf8(minute + rest);
    encode_utf8_valid_utf8(rest);
    lemma_boundary(minute, rest);
}

proof fn lemma_boundary(a: Seq<char>, b: Seq<char>)
    ensures
        is_char_boundary(encode_utf8(a + b), encode_utf8(a).len() as int),
    decreases a.len(),
{
    encode_utf8_valid_utf8(a + b);
    if a.len() == 0 {
        assert(a + b =~= b);
        is_char_boundary_start_end_of_seq(encode_utf8(b));
    } else {
        let t = a.drop_first();
        lemma_boundary(t, b);
        lemma_bytes_in_a_row(a, b);
        assert((a + b).drop_first() =~= t + b);
        encode_utf8_first_scalar(a + b);
        assert(pop_first_scalar(encode_utf8(a + b)) =~= encode_utf8(t + b));
    }
}

} // verus!
