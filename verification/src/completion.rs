//! Completion of a command line.

use crate::text::{
    after_prefix, contains, contains_text, is_blank, is_space, lemma_trimmed_start,
    prefixes_come_off, starts_with, strip_prefix, texts, trim_start, trimmed_start,
};
use crate::tokens::{entries_of, has_alias, has_token, Entry, TokenEntry};
use crate::unicode::{lemma_bytes_in_a_row, lowercase, to_lowercase};
use vstd::prelude::*;
use vstd::string::*;
use vstd::utf8::*;

verus! {

/// A completion: what is shown, and what is put in.
#[derive(Debug, PartialEq)]
pub struct Candidate {
    pub display: String,
    pub replacement: String,
}

impl View for Candidate {
    type V = (Seq<char>, Seq<char>);

    open spec fn view(&self) -> (Seq<char>, Seq<char>) {
        (self.display@, self.replacement@)
    }
}

/// The views of a list of candidates.
pub open spec fn candidates_of(list: Seq<Candidate>) -> Seq<(Seq<char>, Seq<char>)> {
    list.map_values(|c: Candidate| c@)
}

/// The number of commands that are offered.
pub const COMMAND_COUNT: usize = 10;

/// The commands that are offered, in the order of the offer.
pub open spec fn offered_command(i: int) -> Seq<char> {
    if i == 0 {
        "put"@
    } else if i == 1 {
        "get"@
    } else if i == 2 {
        "delete"@
    } else if i == 3 {
        "alias"@
    } else if i == 4 {
        "info"@
    } else if i == 5 {
        "list"@
    } else if i == 6 {
        "edit"@
    } else if i == 7 {
        "help"@
    } else if i == 8 {
        "exit"@
    } else {
        "bye"@
    }
}

/// The first 20 bytes of a token, with dots where some are left out.
pub open spec fn clipped(t: Seq<char>) -> Seq<char> {
    let b = encode_utf8(t);
    if b.len() > 20 {
        decode_utf8(b.take(20)) + "..."@
    } else {
        t
    }
}

/// A token that can be cut after 20 bytes, if it is longer.
pub open spec fn can_clip(t: Seq<char>) -> bool {
    encode_utf8(t).len() > 20 ==> is_char_boundary(encode_utf8(t), 20)
}

/// The tokens of a list of entries.
pub open spec fn tokens_of(list: Seq<Entry>) -> Seq<Seq<char>> {
    list.map_values(|e: Entry| e.token)
}

/// The names in a list of entries.
pub open spec fn aliases_of(list: Seq<Entry>) -> Seq<Seq<char>>
    decreases list.len(),
{
    if list.len() == 0 {
        Seq::empty()
    } else {
        match list.last().alias {
            Some(a) => aliases_of(list.drop_last()).push(a),
            None => aliases_of(list.drop_last()),
        }
    }
}

/// Each text of `list` in lower case.
pub open spec fn all_lowercase(list: Seq<Seq<char>>) -> Seq<Seq<char>> {
    list.map_values(|s: Seq<char>| lowercase(s))
}

/// The names whose folded form starts with `prefix`.
pub open spec fn alias_matches(
    aliases: Seq<Seq<char>>,
    folded: Seq<Seq<char>>,
    prefix: Seq<char>,
) -> Seq<(Seq<char>, Seq<char>)>
    decreases aliases.len(),
{
    if aliases.len() == 0 {
        Seq::empty()
    } else {
        let before = alias_matches(aliases.drop_last(), folded.drop_last(), prefix);
        if prefix.is_prefix_of(folded.last()) {
            before.push((aliases.last(), aliases.last()))
        } else {
            before
        }
    }
}

/// The tokens that start with `prefix`, shown clipped.
pub open spec fn token_matches(tokens: Seq<Seq<char>>, prefix: Seq<char>) -> Seq<
    (Seq<char>, Seq<char>),
>
    decreases tokens.len(),
{
    if tokens.len() == 0 {
        Seq::empty()
    } else {
        let before = token_matches(tokens.drop_last(), prefix);
        if prefix.is_prefix_of(tokens.last()) {
            before.push((clipped(tokens.last()), tokens.last()))
        } else {
            before
        }
    }
}

/// The first `n` commands of the offer that start with `line`.
pub open spec fn command_matches(line: Seq<char>, n: int) -> Seq<(Seq<char>, Seq<char>)>
    decreases n,
{
    if n <= 0 {
        Seq::empty()
    } else {
        let before = command_matches(line, n - 1);
        let c = offered_command(n - 1);
        if line.is_prefix_of(c) {
            before.push((c, c))
        } else {
            before
        }
    }
}

/// What a line that names a token holds of it so far.
pub open spec fn token_prefix(line: Seq<char>) -> Option<Seq<char>> {
    match after_prefix(line, "get "@) {
        Some(rest) => Some(trimmed_start(rest)),
        None => match after_prefix(line, "delete "@) {
            Some(rest) => Some(trimmed_start(rest)),
            None => None,
        },
    }
}

/// The completions of what a line holds of a token: names first, then tokens.
pub open spec fn reference_matches(
    aliases: Seq<Seq<char>>,
    tokens: Seq<Seq<char>>,
    prefix: Seq<char>,
) -> Seq<(Seq<char>, Seq<char>)> {
    alias_matches(aliases, all_lowercase(aliases), lowercase(prefix)) + token_matches(
        tokens,
        prefix,
    )
}

/// The completions of a line and the byte at which they go in, or none: then file names are
/// offered instead.
pub open spec fn completed(
    aliases: Seq<Seq<char>>,
    tokens: Seq<Seq<char>>,
    line: Seq<char>,
) -> Option<(int, Seq<(Seq<char>, Seq<char>)>)> {
    match token_prefix(line) {
        Some(p) if reference_matches(aliases, tokens, p).len() > 0 => Some(
            (encode_utf8(line).len() - encode_utf8(p).len(), reference_matches(aliases, tokens, p)),
        ),
        _ => if !contains_text(line, " "@) && command_matches(
            line,
            COMMAND_COUNT as int,
        ).len() > 0 {
            Some((0, command_matches(line, COMMAND_COUNT as int)))
        } else {
            None
        },
    }
}

fn command(i: usize) -> (r: &'static str)
    ensures
        r@ == offered_command(i as int),
{
    if i == 0 {
        "put"
    } else if i == 1 {
        "get"
    } else if i == 2 {
        "delete"
    } else if i == 3 {
        "alias"
    } else if i == 4 {
        "info"
    } else if i == 5 {
        "list"
    } else if i == 6 {
        "edit"
    } else if i == 7 {
        "help"
    } else if i == 8 {
        "exit"
    } else {
        "bye"
    }
}

/// The tokens of a list of entries.
pub fn collect_tokens(entries: &[TokenEntry]) -> (r: Vec<String>)
    ensures
        texts(r@) == tokens_of(entries_of(entries@)),
{
    let mut r: Vec<String> = Vec::new();
    let mut i: usize = 0;
    while i < entries.len()
        invariant
            i <= entries@.len(),
            r@.len() == i,
            forall|j: int| 0 <= j < i ==> (#[trigger] r@[j])@ == entries@[j].token@,
        decreases entries@.len() - i,
    {
        r.push(entries[i].token.as_str().to_owned());
        i += 1;
    }
    assert(texts(r@) =~= tokens_of(entries_of(entries@)));
    r
}

/// The names in a list of entries.
pub fn collect_aliases(entries: &[TokenEntry]) -> (r: Vec<String>)
    ensures
        texts(r@) == aliases_of(entries_of(entries@)),
{
    let ghost list = entries_of(entries@);
    let mut r: Vec<String> = Vec::new();
    let mut i: usize = 0;
    while i < entries.len()
        invariant
            i <= entries@.len(),
            list == entries_of(entries@),
            texts(r@) =~= aliases_of(list.take(i as int)),
        decreases entries@.len() - i,
    {
        assert(list.take(i + 1).drop_last() =~= list.take(i as int));
        assert(list.take(i + 1).last() == entries@[i as int]@);
        if let Some(a) = &entries[i].alias {
            let ghost before = r@;
            r.push(a.as_str().to_owned());
            assert(texts(r@) =~= texts(before).push(a@));
        }
        i += 1;
    }
    assert(list.take(i as int) =~= list);
    r
}

/// The names whose folded form starts with `prefix`.
pub fn match_aliases(aliases: &Vec<String>, folded: &Vec<String>, prefix: &str) -> (r: Vec<
    Candidate,
>)
    requires
        aliases@.len() == folded@.len(),
    ensures
        candidates_of(r@) == alias_matches(texts(aliases@), texts(folded@), prefix@),
{
    let ghost a = texts(aliases@);
    let ghost f = texts(folded@);
    let mut r: Vec<Candidate> = Vec::new();
    let mut i: usize = 0;
    while i < aliases.len()
        invariant
            i <= aliases@.len(),
            aliases@.len() == folded@.len(),
            a == texts(aliases@),
            f == texts(folded@),
            candidates_of(r@) =~= alias_matches(a.take(i as int), f.take(i as int), prefix@),
        decreases aliases@.len() - i,
    {
        assert(a.take(i + 1).drop_last() =~= a.take(i as int));
        assert(f.take(i + 1).drop_last() =~= f.take(i as int));
        if starts_with(folded[i].as_str(), prefix) {
            let ghost before = r@;
            r.push(
                Candidate {
                    display: aliases[i].as_str().to_owned(),
                    replacement: aliases[i].as_str().to_owned(),
                },
            );
            assert(candidates_of(r@) =~= candidates_of(before).push((a[i as int], a[i as int])));
        }
        i += 1;
    }
    assert(a.take(i as int) =~= a);
    assert(f.take(i as int) =~= f);
    r
}

/// The first 20 bytes of a token, with dots where some are left out.
pub fn clip_token(t: &str) -> (r: String)
    requires
        can_clip(t@),
    ensures
        r@ == clipped(t@),
{
    if t.as_bytes().len() > 20 {
        let (head, _) = t.split_at(20);
        proof {
            encode_utf8_decode_utf8(head@);
            assert(head.spec_bytes() =~= encode_utf8(t@).take(20));
        }
        let mut r = head.to_owned();
        r.append("...");
        r
    } else {
        t.to_owned()
    }
}

/// The tokens that start with `prefix`, shown clipped.
pub fn match_tokens(tokens: &Vec<String>, prefix: &str) -> (r: Vec<Candidate>)
    requires
        forall|i: int|
            0 <= i < tokens@.len() && prefix@.is_prefix_of((#[trigger] tokens@[i])@) ==> can_clip(
                tokens@[i]@,
            ),
    ensures
        candidates_of(r@) == token_matches(texts(tokens@), prefix@),
{
    let ghost t = texts(tokens@);
    let mut r: Vec<Candidate> = Vec::new();
    let mut i: usize = 0;
    while i < tokens.len()
        invariant
            i <= tokens@.len(),
            t == texts(tokens@),
            candidates_of(r@) =~= token_matches(t.take(i as int), prefix@),
            forall|i: int|
                0 <= i < tokens@.len() && prefix@.is_prefix_of((#[trigger] tokens@[i])@)
                    ==> can_clip(tokens@[i]@),
        decreases tokens@.len() - i,
    {
        assert(t.take(i + 1).drop_last() =~= t.take(i as int));
        if starts_with(tokens[i].as_str(), prefix) {
            let ghost before = r@;
            r.push(
                Candidate {
                    display: clip_token(tokens[i].as_str()),
                    replacement: tokens[i].as_str().to_owned(),
                },
            );
            assert(candidates_of(r@) =~= candidates_of(before).push(
                (clipped(t[i as int]), t[i as int]),
            ));
        }
        i += 1;
    }
    assert(t.take(i as int) =~= t);
    r
}

/// The commands that start with `line`.
pub fn match_commands(line: &str) -> (r: Vec<Candidate>)
    ensures
        candidates_of(r@) == command_matches(line@, COMMAND_COUNT as int),
{
    let mut r: Vec<Candidate> = Vec::new();
    let mut i: usize = 0;
    while i < COMMAND_COUNT
        invariant
            i <= COMMAND_COUNT,
            candidates_of(r@) =~= command_matches(line@, i as int),
        decreases COMMAND_COUNT - i,
    {
        let c = command(i);
        if starts_with(c, line) {
            let ghost before = r@;
            r.push(Candidate { display: c.to_owned(), replacement: c.to_owned() });
            assert(candidates_of(r@) =~= candidates_of(before).push((c@, c@)));
        }
        i += 1;
    }
    r
}

fn lowercase_all(list: &Vec<String>) -> (r: Vec<String>)
    ensures
        texts(r@) == all_lowercase(texts(list@)),
        r@.len() == list@.len(),
{
    let mut r: Vec<String> = Vec::new();
    let mut i: usize = 0;
    while i < list.len()
        invariant
            i <= list@.len(),
            r@.len() == i,
            forall|j: int| 0 <= j < i ==> (#[trigger] r@[j])@ == lowercase(list@[j]@),
        decreases list@.len() - i,
    {
        r.push(to_lowercase(list[i].as_str()));
        i += 1;
    }
    assert(texts(r@) =~= all_lowercase(texts(list@)));
    r
}

/// What completion knows: the tokens and names of the entries.
pub struct ReplHelper {
    pub tokens: Vec<String>,
    pub aliases: Vec<String>,
}

impl ReplHelper {
    /// The helper holds the tokens and names of `list`.
    pub open spec fn reflects(&self, list: Seq<Entry>) -> bool {
        texts(self.tokens@) == tokens_of(list) && texts(self.aliases@) == aliases_of(list)
    }

    /// A helper for `entries`.
    pub fn new(entries: &[TokenEntry]) -> (r: ReplHelper)
        ensures
            r.reflects(entries_of(entries@)),
    {
        ReplHelper { tokens: collect_tokens(entries), aliases: collect_aliases(entries) }
    }

    /// Takes over the tokens and names of `entries`.
    pub fn sync(&mut self, entries: &[TokenEntry])
        ensures
            final(self).reflects(entries_of(entries@)),
    {
        self.tokens = collect_tokens(entries);
        self.aliases = collect_aliases(entries);
    }

    /// The tokens that `line` can be completed with can be cut for display.
    pub open spec fn can_offer(&self, line: Seq<char>) -> bool {
        token_prefix(line) matches Some(p) ==> forall|i: int|
            0 <= i < self.tokens@.len() && p.is_prefix_of((#[trigger] self.tokens@[i])@)
                ==> can_clip(self.tokens@[i]@)
    }

    /// Whether the tokens that `line` can be completed with can be cut for display.
    pub fn can_complete(&self, line: &str) -> (r: bool)
        ensures
            r == self.can_offer(line@),
    {
        let rest = match strip_prefix(line, "get ") {
            Some(rest) => Some(rest),
            None => strip_prefix(line, "delete "),
        };
        if let Some(rest) = rest {
            let prefix = trim_start(rest);
            let mut i: usize = 0;
            while i < self.tokens.len()
                invariant
                    i <= self.tokens@.len(),
                    token_prefix(line@) == Some(prefix@),
                    forall|j: int|
                        0 <= j < i && prefix@.is_prefix_of((#[trigger] self.tokens@[j])@)
                            ==> can_clip(self.tokens@[j]@),
                decreases self.tokens@.len() - i,
            {
                let t = self.tokens[i].as_str();
                if starts_with(t, prefix) && t.as_bytes().len() > 20 && !t.is_char_boundary(20) {
                    assert(!can_clip(self.tokens@[i as int]@));
                    return false;
                }
                i += 1;
            }
        }
        true
    }

    /// The completions of `line` and the byte at which they go in, or `None` when file names are
    /// to be offered.
    pub fn complete(&self, line: &str) -> (r: Option<(usize, Vec<Candidate>)>)
        requires
            self.can_offer(line@),
        ensures
            match r {
                Some((start, list)) => completed(
                    texts(self.aliases@),
                    texts(self.tokens@),
                    line@,
                ) == Some((start as int, candidates_of(list@))),
                None => completed(texts(self.aliases@), texts(self.tokens@), line@) is None,
            },
    {
        let rest = match strip_prefix(line, "get ") {
            Some(rest) => Some(rest),
            None => strip_prefix(line, "delete "),
        };
        if let Some(rest) = rest {
            let prefix = trim_start(rest);
            let folded = lowercase_all(&self.aliases);
            let mut list = match_aliases(
                &self.aliases,
                &folded,
                to_lowercase(prefix).as_str(),
            );
            let mut tokens = match_tokens(&self.tokens, prefix);
            let ghost first = list@;
            let ghost second = tokens@;
            list.append(&mut tokens);
            assert(candidates_of(list@) =~= candidates_of(first) + candidates_of(second));
            proof {
                lemma_suffix_is_shorter(line@);
            }
            let start: usize = line.as_bytes().len() - prefix.as_bytes().len();
            if list.len() > 0 {
                return Some((start, list));
            }
        }
        if !contains(line, " ") {
            let list = match_commands(line);
            if list.len() > 0 {
                return Some((0, list));
            }
        }
        None
    }
}

proof fn lemma_trimmed_start_bytes(s: Seq<char>)
    ensures
        encode_utf8(trimmed_start(s)).len() <= encode_utf8(s).len(),
    decreases s.len(),
{
    if s.len() > 0 && is_space(s[0]) {
        assert(s.skip(1) =~= s.drop_first());
        lemma_trimmed_start_bytes(s.skip(1));
    }
}

proof fn lemma_skip_bytes(s: Seq<char>, n: int)
    requires
        0 <= n <= s.len(),
    ensures
        encode_utf8(s.skip(n)).len() <= encode_utf8(s).len(),
    decreases n,
{
    if n == 0 {
        assert(s.skip(0) =~= s);
    } else {
        lemma_skip_bytes(s.drop_first(), n - 1);
        assert(s.drop_first().skip(n - 1) =~= s.skip(n));
    }
}

proof fn lemma_suffix_is_shorter(line: Seq<char>)
    ensures
        token_prefix(line) matches Some(p) ==> encode_utf8(p).len() <= encode_utf8(line).len(),
{
    if let Some(rest) = after_prefix(line, "get "@) {
        lemma_skip_bytes(line, "get "@.len() as int);
        lemma_trimmed_start_bytes(rest);
    } else if let Some(rest) = after_prefix(line, "delete "@) {
        lemma_skip_bytes(line, "delete "@.len() as int);
        lemma_trimmed_start_bytes(rest);
    }
}

/// The tokens on offer are the known ones that go on as the line does, each in full, and none of
/// them is left out.
pub proof fn token_completions_are_the_matching_tokens(
    tokens: Seq<Seq<char>>,
    prefix: Seq<char>,
    t: Seq<char>,
)
    ensures
        token_matches(tokens, prefix).contains((clipped(t), t)) <==> tokens.contains(t)
            && prefix.is_prefix_of(t),
    decreases tokens.len(),
{
    let all = token_matches(tokens, prefix);
    if tokens.len() > 0 {
        let front = tokens.drop_last();
        let before = token_matches(front, prefix);
        token_completions_are_the_matching_tokens(front, prefix, t);
        assert(tokens =~= front.push(tokens.last()));
        assert(tokens.contains(t) <==> front.contains(t) || tokens.last() == t) by {
            if front.contains(t) {
                let i = choose|i: int| 0 <= i < front.len() && front[i] == t;
                assert(tokens[i] == t);
            }
            if tokens.last() == t {
                assert(tokens[tokens.len() - 1] == t);
            }
            if tokens.contains(t) && tokens.last() != t {
                let i = choose|i: int| 0 <= i < tokens.len() && tokens[i] == t;
                assert(front[i] == t);
            }
        }
        if prefix.is_prefix_of(tokens.last()) {
            let new = (clipped(tokens.last()), tokens.last());
            assert(all == before.push(new));
            assert(all.contains((clipped(t), t)) <==> before.contains((clipped(t), t))
                || tokens.last() == t) by {
                if before.contains((clipped(t), t)) {
                    let i = choose|i: int|
                        0 <= i < before.len() && before[i] == (clipped(t), t);
                    assert(all[i] == (clipped(t), t));
                }
                if tokens.last() == t {
                    assert(all[all.len() - 1] == (clipped(t), t));
                }
                if all.contains((clipped(t), t)) && tokens.last() != t {
                    let i = choose|i: int| 0 <= i < all.len() && all[i] == (clipped(t), t);
                    assert(before[i] == (clipped(t), t));
                }
            }
        }
    }
}

/// The commands on offer are those that go on as the line does.
pub proof fn command_completions_extend_the_line(line: Seq<char>, n: int)
    requires
        0 <= n <= COMMAND_COUNT,
    ensures
        forall|i: int|
            0 <= i < command_matches(line, n).len() ==> line.is_prefix_of(
                (#[trigger] command_matches(line, n)[i]).1,
            ),
        forall|k: int|
            0 <= k < n && line.is_prefix_of(#[trigger] offered_command(k)) ==> command_matches(
                line,
                n,
            ).contains((offered_command(k), offered_command(k))),
    decreases n,
{
    if n > 0 {
        command_completions_extend_the_line(line, n - 1);
        let before = command_matches(line, n - 1);
        let all = command_matches(line, n);
        assert forall|k: int|
            0 <= k < n && line.is_prefix_of(#[trigger] offered_command(k)) implies all.contains(
            (offered_command(k), offered_command(k)),
        ) by {
            let c = (offered_command(k), offered_command(k));
            if k < n - 1 {
                let i = choose|i: int| 0 <= i < before.len() && before[i] == c;
                assert(all[i] == c);
            } else {
                assert(all[all.len() - 1] == c);
            }
        }
    }
}

proof fn lemma_alias_matches_are_aliases(
    aliases: Seq<Seq<char>>,
    folded: Seq<Seq<char>>,
    prefix: Seq<char>,
)
    ensures
        forall|k: int|
            0 <= k < alias_matches(aliases, folded, prefix).len() ==> aliases.contains(
                (#[trigger] alias_matches(aliases, folded, prefix)[k]).1,
            ),
    decreases aliases.len(),
{
    if aliases.len() > 0 {
        let front = aliases.drop_last();
        let before = alias_matches(front, folded.drop_last(), prefix);
        let all = alias_matches(aliases, folded, prefix);
        lemma_alias_matches_are_aliases(front, folded.drop_last(), prefix);
        assert forall|k: int| 0 <= k < all.len() implies aliases.contains(
            (#[trigger] all[k]).1,
        ) by {
            if k < before.len() {
                assert(front.contains(before[k].1));
                let i = choose|i: int| 0 <= i < front.len() && front[i] == before[k].1;
                assert(aliases[i] == all[k].1);
            } else {
                assert(aliases[aliases.len() - 1] == all[k].1);
            }
        }
    }
}

proof fn lemma_aliases_are_names(list: Seq<Entry>)
    ensures
        forall|k: int|
            0 <= k < aliases_of(list).len() ==> has_alias(list, #[trigger] aliases_of(list)[k]),
    decreases list.len(),
{
    if list.len() > 0 {
        let front = list.drop_last();
        lemma_aliases_are_names(front);
        assert forall|k: int| 0 <= k < aliases_of(list).len() implies has_alias(
            list,
            #[trigger] aliases_of(list)[k],
        ) by {
            let a = aliases_of(list)[k];
            if k < aliases_of(front).len() {
                assert(aliases_of(front)[k] == a);
                let i = choose|i: int|
                    0 <= i < front.len() && (#[trigger] front[i]).alias == Some(a);
                assert(list[i].alias == Some(a));
            } else {
                assert(list[list.len() - 1].alias == Some(a));
            }
        }
    }
}

proof fn lemma_token_matches_are_tokens(tokens: Seq<Seq<char>>, prefix: Seq<char>)
    ensures
        forall|k: int|
            0 <= k < token_matches(tokens, prefix).len() ==> tokens.contains(
                (#[trigger] token_matches(tokens, prefix)[k]).1,
            ),
    decreases tokens.len(),
{
    if tokens.len() > 0 {
        let front = tokens.drop_last();
        let before = token_matches(front, prefix);
        let all = token_matches(tokens, prefix);
        lemma_token_matches_are_tokens(front, prefix);
        assert forall|k: int| 0 <= k < all.len() implies tokens.contains(
            (#[trigger] all[k]).1,
        ) by {
            if k < before.len() {
                assert(front.contains(before[k].1));
                let i = choose|i: int| 0 <= i < front.len() && front[i] == before[k].1;
                assert(tokens[i] == all[k].1);
            } else {
                assert(tokens[tokens.len() - 1] == all[k].1);
            }
        }
    }
}

/// What completion puts in for a reference is the name or the token of an entry.
pub proof fn completions_refer_to_entries(list: Seq<Entry>, prefix: Seq<char>, k: int)
    requires
        0 <= k < reference_matches(aliases_of(list), tokens_of(list), prefix).len(),
    ensures
        ({
            let put_in = reference_matches(aliases_of(list), tokens_of(list), prefix)[k].1;
            has_alias(list, put_in) || has_token(list, put_in)
        }),
{
    let aliases = aliases_of(list);
    let tokens = tokens_of(list);
    let names = alias_matches(aliases, all_lowercase(aliases), lowercase(prefix));
    let put_in = reference_matches(aliases, tokens, prefix)[k].1;
    lemma_alias_matches_are_aliases(aliases, all_lowercase(aliases), lowercase(prefix));
    lemma_token_matches_are_tokens(tokens, prefix);
    lemma_aliases_are_names(list);
    if k < names.len() {
        assert(aliases.contains(names[k].1));
        let i = choose|i: int| 0 <= i < aliases.len() && aliases[i] == put_in;
        assert(has_alias(list, aliases[i]));
    } else {
        assert(tokens.contains(token_matches(tokens, prefix)[k - names.len()].1));
        let i = choose|i: int| 0 <= i < tokens.len() && tokens[i] == put_in;
        assert(list[i].token == put_in);
    }
}

/// The predicate that holds of the entries whose names start with `prefix`, in whatever case.
pub open spec fn name_starts_with(prefix: Seq<char>) -> spec_fn(Entry) -> bool {
    |e: Entry| e.alias is Some && lowercase(prefix).is_prefix_of(lowercase(e.alias->0))
}

/// The predicate that holds of the entries whose tokens start with `prefix`.
pub open spec fn token_starts_with(prefix: Seq<char>) -> spec_fn(Entry) -> bool {
    |e: Entry| prefix.is_prefix_of(e.token)
}

/// What is on offer for a reference: the name of every entry whose name starts as it does, blanks
/// and all, then the token of every entry whose token does, each as often and in the order in which
/// the entries have it.
pub open spec fn offers(list: Seq<Entry>, prefix: Seq<char>) -> Seq<(Seq<char>, Seq<char>)> {
    list.filter(name_starts_with(prefix)).map_values(|e: Entry| (e.alias->0, e.alias->0))
        + list.filter(token_starts_with(prefix)).map_values(
        |e: Entry| (clipped(e.token), e.token),
    )
}

proof fn lemma_names_on_offer(list: Seq<Entry>, prefix: Seq<char>)
    ensures
        alias_matches(
            aliases_of(list),
            all_lowercase(aliases_of(list)),
            lowercase(prefix),
        ) == list.filter(name_starts_with(prefix)).map_values(
            |e: Entry| (e.alias->0, e.alias->0),
        ),
    decreases list.len(),
{
    reveal(Seq::filter);
    let pair = |e: Entry| (e.alias->0, e.alias->0);
    let p = name_starts_with(prefix);
    let names = aliases_of(list);
    if list.len() == 0 {
        assert(list.filter(p).map_values(pair) =~= Seq::empty());
    } else {
        let front = list.drop_last();
        let e = list.last();
        lemma_names_on_offer(front, prefix);
        if let Some(a) = e.alias {
            let before = aliases_of(front);
            assert(names.drop_last() =~= before);
            assert(all_lowercase(names).drop_last() =~= all_lowercase(before));
            assert(all_lowercase(names).last() == lowercase(a));
        }
        if p(e) {
            assert(front.filter(p).push(e).map_values(pair) =~= front.filter(p).map_values(
                pair,
            ).push(pair(e)));
        }
    }
}

proof fn lemma_tokens_on_offer(list: Seq<Entry>, prefix: Seq<char>)
    ensures
        token_matches(tokens_of(list), prefix) == list.filter(
            token_starts_with(prefix),
        ).map_values(|e: Entry| (clipped(e.token), e.token)),
    decreases list.len(),
{
    reveal(Seq::filter);
    let pair = |e: Entry| (clipped(e.token), e.token);
    let p = token_starts_with(prefix);
    if list.len() == 0 {
        assert(list.filter(p).map_values(pair) =~= Seq::empty());
    } else {
        let front = list.drop_last();
        let e = list.last();
        lemma_tokens_on_offer(front, prefix);
        assert(tokens_of(list).drop_last() =~= tokens_of(front));
        if p(e) {
            assert(front.filter(p).push(e).map_values(pair) =~= front.filter(p).map_values(
                pair,
            ).push(pair(e)));
        }
    }
}

/// All names and all tokens that a reference can go on to are on offer, and nothing else.
pub proof fn all_matching_references_are_on_offer(list: Seq<Entry>, prefix: Seq<char>)
    ensures
        reference_matches(aliases_of(list), tokens_of(list), prefix) == offers(list, prefix),
{
    lemma_names_on_offer(list, prefix);
    lemma_tokens_on_offer(list, prefix);
}

/// A name that starts as the reference does is on offer, as itself.
pub proof fn matching_names_are_on_offer(list: Seq<Entry>, prefix: Seq<char>, i: int)
    requires
        0 <= i < list.len(),
        list[i].alias is Some,
        lowercase(prefix).is_prefix_of(lowercase(list[i].alias->0)),
    ensures
        reference_matches(aliases_of(list), tokens_of(list), prefix).contains(
            (list[i].alias->0, list[i].alias->0),
        ),
{
    let p = name_starts_with(prefix);
    let kept = list.filter(p);
    all_matching_references_are_on_offer(list, prefix);
    assert(p(list[i]));
    list.lemma_filter_contains(p, i);
    let k = choose|k: int| 0 <= k < kept.len() && kept[k] == list[i];
    assert(offers(list, prefix)[k] == (list[i].alias->0, list[i].alias->0));
}

/// Behind `get` and `delete`, what is on offer completes the reference, from the byte at which it
/// begins; where nothing is, file names are offered.
pub proof fn references_are_completed(list: Seq<Entry>, gap: Seq<char>, prefix: Seq<char>)
    requires
        is_blank(gap),
        prefix.len() == 0 || !is_space(prefix[0]),
    ensures
        completed(aliases_of(list), tokens_of(list), "get "@ + gap + prefix) == (if offers(
            list,
            prefix,
        ).len() == 0 {
            None
        } else {
            Some((encode_utf8("get "@ + gap).len() as int, offers(list, prefix)))
        }),
        completed(aliases_of(list), tokens_of(list), "delete "@ + gap + prefix) == (if offers(
            list,
            prefix,
        ).len() == 0 {
            None
        } else {
            Some((encode_utf8("delete "@ + gap).len() as int, offers(list, prefix)))
        }),
{
    all_matching_references_are_on_offer(list, prefix);
    reveal_strlit("get ");
    reveal_strlit("delete ");
    reveal_strlit(" ");
    let a = "get "@ + gap + prefix;
    let b = "delete "@ + gap + prefix;
    let rest = gap + prefix;
    assert(a =~= "get "@ + rest);
    assert(b =~= "delete "@ + rest);
    prefixes_come_off("get "@, rest);
    prefixes_come_off("delete "@, rest);
    assert(!"get "@.is_prefix_of(b)) by {
        assert(b[0] == 'd');
        if "get "@.is_prefix_of(b) {
            assert(b.subrange(0, 4)[0] == b[0]);
        }
    }
    let n = gap.len() as int;
    assert forall|j: int| 0 <= j < n implies is_space(#[trigger] rest[j]) by {
        assert(rest[j] == gap[j]);
    }
    if prefix.len() > 0 {
        assert(rest[n] == prefix[0]);
    }
    lemma_trimmed_start(rest, n);
    assert(rest.skip(n) =~= prefix);
    lemma_bytes_in_a_row("get "@ + gap, prefix);
    lemma_bytes_in_a_row("delete "@ + gap, prefix);
    assert(a.subrange(3, 3int + " "@.len()) =~= " "@);
    assert(b.subrange(6, 6int + " "@.len()) =~= " "@);
    assert(token_prefix(a) == Some(prefix) && token_prefix(b) == Some(prefix));
}

proof fn lemma_commands_on_offer(line: Seq<char>, all: Seq<Seq<char>>, n: int)
    requires
        0 <= n <= all.len(),
        forall|k: int| 0 <= k < all.len() ==> #[trigger] all[k] == offered_command(k),
    ensures
        command_matches(line, n) == all.take(n).filter(
            |c: Seq<char>| line.is_prefix_of(c),
        ).map_values(|c: Seq<char>| (c, c)),
    decreases n,
{
    reveal(Seq::filter);
    let p = |c: Seq<char>| line.is_prefix_of(c);
    let pair = |c: Seq<char>| (c, c);
    let some = all.take(n);
    if n == 0 {
        assert(some.filter(p).map_values(pair) =~= Seq::empty());
    } else {
        lemma_commands_on_offer(line, all, n - 1);
        let front = all.take(n - 1);
        assert(some.drop_last() =~= front);
        assert(some.last() == offered_command(n - 1));
        if p(some.last()) {
            assert(front.filter(p).push(some.last()).map_values(pair) =~= front.filter(
                p,
            ).map_values(pair).push(pair(some.last())));
        }
    }
}

/// The commands, in the order of the offer.
pub open spec fn all_commands() -> Seq<Seq<char>> {
    seq![
        "put"@,
        "get"@,
        "delete"@,
        "alias"@,
        "info"@,
        "list"@,
        "edit"@,
        "help"@,
        "exit"@,
        "bye"@,
    ]
}

/// A line without blanks is completed to the commands that start as it does, all of them and in
/// their order; where there are none, and behind other commands, file names are offered.
pub proof fn commands_are_completed(
    aliases: Seq<Seq<char>>,
    tokens: Seq<Seq<char>>,
    line: Seq<char>,
)
    requires
        !"get "@.is_prefix_of(line),
        !"delete "@.is_prefix_of(line),
    ensures
        ({
            let found = all_commands().filter(
                |c: Seq<char>| line.is_prefix_of(c),
            ).map_values(|c: Seq<char>| (c, c));
            completed(aliases, tokens, line) == (if line.contains(' ') || found.len() == 0 {
                None
            } else {
                Some((0int, found))
            })
        }),
{
    let all = all_commands();
    lemma_commands_on_offer(line, all, 10);
    assert(all.take(10) =~= all);
    reveal_strlit(" ");
    assert(contains_text(line, " "@) <==> line.contains(' ')) by {
        if line.contains(' ') {
            let i = choose|i: int| 0 <= i < line.len() && line[i] == ' ';
            assert(line.subrange(i, i + 1) =~= " "@);
        }
        if contains_text(line, " "@) {
            let i = choose|i: int|
                0 <= i <= line.len() - 1 && #[trigger] line.subrange(i, i + 1) == " "@;
            assert(line.subrange(i, i + 1)[0] == line[i]);
        }
    }
}

/// A token is shown by its first 20 characters and dots; a short one is shown whole.
pub proof fn long_tokens_are_clipped(head: Seq<char>, rest: Seq<char>)
    requires
        is_ascii_chars(head),
    ensures
        head.len() == 20 && rest.len() > 0 ==> clipped(head + rest) == head + "..."@,
        head.len() <= 20 ==> clipped(head) == head,
{
    is_ascii_chars_encode_utf8(head);
    lemma_bytes_in_a_row(head, rest);
    encode_utf8_decode_utf8(head);
    if head.len() == 20 && rest.len() > 0 {
        encode_utf8_decode_utf8(rest);
        if encode_utf8(rest).len() == 0 {
            assert(decode_utf8(encode_utf8(rest)) =~= Seq::<char>::empty());
        }
        assert(encode_utf8(head + rest).take(20) =~= encode_utf8(head));
    }
}

/// Every line can be completed as long as the tokens are ASCII.
pub proof fn ascii_tokens_can_be_offered(helper: ReplHelper, line: Seq<char>)
    requires
        forall|i: int| 0 <= i < helper.tokens@.len() ==> is_ascii_chars((#[trigger] helper.tokens@[i])@),
    ensures
        helper.can_offer(line),
{
    assert forall|i: int| 0 <= i < helper.tokens@.len() implies can_clip(
        (#[trigger] helper.tokens@[i])@,
    ) by {
        let t = helper.tokens@[i]@;
        let b = encode_utf8(t);
        assert(is_ascii_chars(t));
        is_ascii_chars_encode_utf8(t);
        encode_utf8_valid_utf8(t);
        if b.len() > 20 {
            is_char_boundary_iff_not_is_continuation_byte(b, 20);
            assert(t[20] as u8 == b[20]);
            assert('\0' <= t[20] <= '\u{7f}');
            let c = b[20];
            assert(c <= 127);
            assert(c <= 127 ==> !(0x80 <= c <= 0xbf)) by (bit_vector);
            utf8_byte_ranges_bitwise(c);
        }
    }
}

} // verus!
