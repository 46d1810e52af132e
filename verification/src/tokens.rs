//! The tokens that the shell knows, their names, and how a user refers to them.

use crate::number::{number_up_to, parse_number};
use crate::text::{
    find_where, lemma_find_where, lemma_find_where_is, same, text_of, texts, trim, trimmed,
};
use crate::unicode::utf8_text;
use vstd::prelude::*;
use vstd::string::*;
use vstd::utf8::*;

verus! {

/// A token with its name and the time at which it was first saved.
#[derive(Clone, Debug)]
pub struct TokenEntry {
    pub token: String,
    pub alias: Option<String>,
    pub created_at: String,
}

/// A token entry as texts.
#[verifier::ext_equal]
pub struct Entry {
    pub token: Seq<char>,
    pub alias: Option<Seq<char>>,
    pub created_at: Seq<char>,
}

impl View for TokenEntry {
    type V = Entry;

    open spec fn view(&self) -> Entry {
        Entry { token: self.token@, alias: text_of(self.alias), created_at: self.created_at@ }
    }
}

/// The views of a list of entries.
pub open spec fn entries_of(list: Seq<TokenEntry>) -> Seq<Entry> {
    list.map_values(|e: TokenEntry| e@)
}

/// The predicate that holds of the entries named `a`.
pub open spec fn named(a: Seq<char>) -> spec_fn(Entry) -> bool {
    |e: Entry| e.alias == Some(a)
}

/// The predicate that holds of the entries with token `t`.
pub open spec fn with_token(t: Seq<char>) -> spec_fn(Entry) -> bool {
    |e: Entry| e.token == t
}

/// Some entry is named `a`.
pub open spec fn has_alias(list: Seq<Entry>, a: Seq<char>) -> bool {
    exists|i: int| 0 <= i < list.len() && (#[trigger] list[i]).alias == Some(a)
}

/// Some entry has token `t`.
pub open spec fn has_token(list: Seq<Entry>, t: Seq<char>) -> bool {
    exists|i: int| 0 <= i < list.len() && (#[trigger] list[i]).token == t
}

/// The position that `arg` names when it is a number from 1 to `len`.
pub open spec fn index_in(len: nat, arg: Seq<char>) -> Option<int> {
    match number_up_to(arg, usize::MAX as nat) {
        Ok(n) => if 1 <= n <= len {
            Some(n - 1)
        } else {
            None
        },
        Err(_) => None,
    }
}

/// The position of the entry that `arg` refers to: by its number, else by its name, else by its
/// token.
pub open spec fn resolved(list: Seq<Entry>, arg: Seq<char>) -> Option<int> {
    match index_in(list.len(), arg) {
        Some(i) => Some(i),
        None => if find_where(list, named(arg)) < list.len() {
            Some(find_where(list, named(arg)))
        } else if find_where(list, with_token(arg)) < list.len() {
            Some(find_where(list, with_token(arg)))
        } else {
            None
        },
    }
}

/// The first `max` characters of a token, with dots where some are left out.
pub open spec fn truncated(token: Seq<char>, max: int) -> Seq<char> {
    if token.len() <= max {
        token
    } else {
        token.take(max) + "..."@
    }
}

/// The predicate that holds of the newline byte.
pub open spec fn newline() -> spec_fn(u8) -> bool {
    |b: u8| b == 0x0a
}

/// A line without the carriage return before its newline.
pub open spec fn without_return(line: Seq<u8>) -> Seq<u8> {
    if line.len() > 0 && line.last() == 0x0d {
        line.drop_last()
    } else {
        line
    }
}

/// The lines of a file, without their ends.
pub open spec fn raw_lines(bytes: Seq<u8>) -> Seq<Seq<u8>>
    decreases bytes.len(),
{
    let n = find_where(bytes, newline());
    if bytes.len() == 0 {
        Seq::empty()
    } else if 0 <= n < bytes.len() {
        seq![without_return(bytes.take(n))] + raw_lines(bytes.skip(n + 1))
    } else {
        seq![bytes]
    }
}

/// The texts of the lines before the first that is not UTF-8.
pub open spec fn readable_lines(lines: Seq<Seq<u8>>) -> Seq<Seq<char>>
    decreases lines.len(),
{
    if lines.len() == 0 || !valid_utf8(lines[0]) {
        Seq::empty()
    } else {
        seq![decode_utf8(lines[0])] + readable_lines(lines.skip(1))
    }
}

/// The texts of `list` that are not blank, each once, where it first occurs.
pub open spec fn distinct(list: Seq<Seq<char>>) -> Seq<Seq<char>>
    decreases list.len(),
{
    if list.len() == 0 {
        Seq::empty()
    } else {
        let kept = distinct(list.drop_last());
        if trimmed(list.last()).len() == 0 || kept.contains(list.last()) {
            kept
        } else {
            kept.push(list.last())
        }
    }
}

/// The tokens in a file that holds one on each line.
pub open spec fn tokens_in(bytes: Seq<u8>) -> Seq<Seq<char>> {
    distinct(readable_lines(raw_lines(bytes)))
}

/// An equal copy of an optional string.
pub fn copy_name(name: &Option<String>) -> (r: Option<String>)
    ensures
        text_of(r) == text_of(*name),
{
    match name {
        Some(a) => Some(a.as_str().to_owned()),
        None => None,
    }
}

/// The position of the first entry named `name`, or the number of entries.
pub fn position_of_alias(entries: &[TokenEntry], name: &str) -> (r: usize)
    ensures
        r == find_where(entries_of(entries@), named(name@)),
        r <= entries@.len(),
        r < entries@.len() <==> has_alias(entries_of(entries@), name@),
{
    let ghost list = entries_of(entries@);
    let mut i: usize = 0;
    while i < entries.len()
        invariant
            i <= entries@.len(),
            list == entries_of(entries@),
            forall|j: int| 0 <= j < i ==> (#[trigger] list[j]).alias != Some(name@),
        decreases entries@.len() - i,
    {
        assert(list[i as int] == entries@[i as int]@);
        if let Some(a) = &entries[i].alias {
            if same(a.as_str(), name) {
                proof {
                    lemma_find_where(list, named(name@), i as int);
                }
                return i;
            }
        }
        i += 1;
    }
    proof {
        lemma_find_where(list, named(name@), i as int);
    }
    i
}

/// The position of the first entry with token `token`, or the number of entries.
pub fn position_of_token(entries: &[TokenEntry], token: &str) -> (r: usize)
    ensures
        r == find_where(entries_of(entries@), with_token(token@)),
        r <= entries@.len(),
        r < entries@.len() <==> has_token(entries_of(entries@), token@),
        r < entries@.len() ==> entries_of(entries@)[r as int].token == token@,
{
    let ghost list = entries_of(entries@);
    let mut i: usize = 0;
    while i < entries.len()
        invariant
            i <= entries@.len(),
            list == entries_of(entries@),
            forall|j: int| 0 <= j < i ==> (#[trigger] list[j]).token != token@,
        decreases entries@.len() - i,
    {
        assert(list[i as int] == entries@[i as int]@);
        if same(entries[i].token.as_str(), token) {
            proof {
                lemma_find_where(list, with_token(token@), i as int);
            }
            return i;
        }
        i += 1;
    }
    proof {
        lemma_find_where(list, with_token(token@), i as int);
    }
    i
}

/// The entry that `arg` refers to, with its position: by its number (counted from 1), else by
/// its name, else by its token.
pub fn resolve_token<'a>(entries: &'a [TokenEntry], arg: &str) -> (r: Option<
    (usize, &'a TokenEntry),
>)
    ensures
        match r {
            Some((i, e)) => {
                &&& resolved(entries_of(entries@), arg@) == Some(i as int)
                &&& i < entries@.len()
                &&& *e == entries@[i as int]
            },
            None => resolved(entries_of(entries@), arg@) is None,
        },
{
    if let Ok(n) = parse_number(arg, usize::MAX as u64) {
        if n >= 1 && n <= entries.len() as u64 {
            let i: usize = n as usize - 1;
            return Some((i, &entries[i]));
        }
    }
    let i = position_of_alias(entries, arg);
    if i < entries.len() {
        return Some((i, &entries[i]));
    }
    let i = position_of_token(entries, arg);
    if i < entries.len() {
        return Some((i, &entries[i]));
    }
    None
}

/// The first `max` characters of a token, with dots where some are left out.
pub fn truncate_token(token: &str, max: usize) -> (r: String)
    ensures
        r@ == truncated(token@, max as int),
{
    if token.unicode_len() <= max {
        token.to_owned()
    } else {
        let mut r = token.substring_char(0, max).to_owned();
        assert(r@ =~= token@.take(max as int));
        r.append("...");
        r
    }
}

fn contains_string(list: &Vec<String>, s: &str) -> (r: bool)
    ensures
        r == texts(list@).contains(s@),
{
    let mut i: usize = 0;
    while i < list.len()
        invariant
            i <= list@.len(),
            forall|j: int| 0 <= j < i ==> #[trigger] texts(list@)[j] != s@,
        decreases list@.len() - i,
    {
        if same(list[i].as_str(), s) {
            assert(texts(list@)[i as int] == s@);
            return true;
        }
        i += 1;
    }
    false
}

/// The tokens in a file that holds one on each line: blank lines are skipped, each token is
/// kept once, and reading ends at a line that is not UTF-8.
pub fn load_tokens(bytes: &[u8]) -> (r: Vec<String>)
    ensures
        texts(r@) == tokens_in(bytes@),
{
    let mut r: Vec<String> = Vec::new();
    let ghost lines = raw_lines(bytes@);
    let ghost mut seen: Seq<Seq<char>> = Seq::empty();
    let mut from: usize = 0;
    assert(bytes@.skip(0) =~= bytes@);
    assert(texts(r@) =~= distinct(seen));
    assert(seen + readable_lines(lines) =~= readable_lines(lines));
    while from < bytes.len()
        invariant
            from <= bytes@.len(),
            texts(r@) == distinct(seen),
            readable_lines(raw_lines(bytes@)) == seen + readable_lines(
                raw_lines(bytes@.skip(from as int)),
            ),
        decreases bytes@.len() - from,
    {
        let ghost rest = bytes@.skip(from as int);
        let mut i: usize = from;
        while i < bytes.len() && bytes[i] != 0x0a
            invariant
                from <= i <= bytes@.len(),
                forall|j: int| from <= j < i ==> #[trigger] bytes@[j] != 0x0a,
            decreases bytes@.len() - i,
        {
            i += 1;
        }
        proof {
            assert forall|j: int| 0 <= j < i - from implies !newline()(#[trigger] rest[j]) by {
                assert(rest[j] == bytes@[from + j]);
            }
            assert(i < bytes@.len() ==> rest[i - from] == bytes@[i as int]);
            lemma_find_where(rest, newline(), i - from);
            assert(rest.take(i - from) =~= bytes@.subrange(from as int, i as int));
        }
        let ended = i < bytes.len();
        let end: usize = if ended && i > from && bytes[i - 1] == 0x0d { i - 1 } else { i };
        let line = vstd::slice::slice_subrange(bytes, from, end);
        let ghost after = if ended {
            raw_lines(bytes@.skip(i + 1))
        } else {
            Seq::empty()
        };
        proof {
            if ended {
                assert(without_return(rest.take(i - from)) =~= line@);
                assert(rest.skip(i - from + 1) =~= bytes@.skip(i + 1));
            } else {
                assert(line@ =~= rest);
                assert(raw_lines(rest) =~= seq![line@] + after);
            }
            assert(raw_lines(rest) == seq![line@] + after);
            assert((seq![line@] + after)[0] == line@);
            assert((seq![line@] + after).skip(1) =~= after);
        }
        let text = match utf8_text(line) {
            Some(s) => s,
            None => {
                assert(readable_lines(raw_lines(bytes@)) =~= seen);
                return r;
            },
        };
        let ghost before = r@;
        let ghost seen_before = seen;
        proof {
            seen = seen.push(text@);
            assert(seen.drop_last() =~= seen_before);
            assert(seen_before + (seq![text@] + readable_lines(after)) =~= seen + readable_lines(
                after,
            ));
        }
        let blank = trim(text.as_str()).is_empty();
        if !blank && !contains_string(&r, text.as_str()) {
            r.push(text);
            assert(texts(r@) =~= texts(before).push(text@));
        }
        if ended {
            from = i + 1;
        } else {
            from = i;
            assert(bytes@.skip(from as int) =~= Seq::empty());
        }
    }
    assert(bytes@.skip(from as int) =~= Seq::empty());
    assert(readable_lines(raw_lines(bytes@)) =~= seen);
    r
}

/// The predicate that holds of `t` alone.
pub open spec fn equal_to(t: Seq<char>) -> spec_fn(Seq<char>) -> bool {
    |s: Seq<char>| s == t
}

/// Of a list of lines, every one that is not blank is kept, once, and none else; what comes
/// first stays first.
pub proof fn distinct_lines_are_kept_in_order(list: Seq<Seq<char>>)
    ensures
        distinct(list).no_duplicates(),
        forall|t: Seq<char>| #[trigger]
            distinct(list).contains(t) <==> list.contains(t) && trimmed(t).len() > 0,
        forall|i: int, j: int|
            0 <= i < j < distinct(list).len() ==> find_where(
                list,
                equal_to(#[trigger] distinct(list)[i]),
            ) < find_where(list, equal_to(#[trigger] distinct(list)[j])),
    decreases list.len(),
{
    let all = distinct(list);
    if list.len() > 0 {
        let front = list.drop_last();
        let last = list.last();
        let kept = distinct(front);
        distinct_lines_are_kept_in_order(front);
        assert forall|t: Seq<char>| #[trigger] all.contains(t) <==> list.contains(t) && trimmed(
            t,
        ).len() > 0 by {
            if list.contains(t) {
                let k = choose|k: int| 0 <= k < list.len() && list[k] == t;
                if k < front.len() {
                    assert(front[k] == t);
                    assert(front.contains(t));
                } else {
                    assert(t == last);
                }
            }
            if front.contains(t) {
                let k = choose|k: int| 0 <= k < front.len() && front[k] == t;
                assert(list[k] == t);
            }
            assert(list[list.len() - 1] == last);
            if kept.contains(t) {
                let k = choose|k: int| 0 <= k < kept.len() && kept[k] == t;
                assert(all[k] == t);
            }
            if all.contains(t) && !kept.contains(t) {
                let k = choose|k: int| 0 <= k < all.len() && all[k] == t;
                if k < kept.len() {
                    assert(kept[k] == t);
                }
            }
            if all.len() > kept.len() {
                assert(all[all.len() - 1] == last);
            }
        }
        assert forall|i: int| 0 <= i < kept.len() implies find_where(
            list,
            equal_to(#[trigger] kept[i]),
        ) == find_where(front, equal_to(kept[i])) && find_where(front, equal_to(kept[i]))
            < front.len() by {
            let t = kept[i];
            assert(kept.contains(t));
            assert(front.contains(t));
            let k = choose|k: int| 0 <= k < front.len() && front[k] == t;
            lemma_find_where_is(front, equal_to(t));
            let n = find_where(front, equal_to(t));
            assert(equal_to(t)(front[k]));
            assert(n < front.len());
            assert(front[n] == t);
            assert forall|j: int| 0 <= j < n implies !equal_to(t)(#[trigger] list[j]) by {
                assert(list[j] == front[j]);
                assert(!equal_to(t)(front[j]));
            }
            assert(list[n] == front[n]);
            lemma_find_where(list, equal_to(t), n);
        }
        if all.len() > kept.len() {
            assert(!front.contains(last)) by {
                if front.contains(last) {
                    assert(kept.contains(last));
                }
            }
            assert forall|j: int| 0 <= j < front.len() implies !equal_to(last)(
                #[trigger] list[j],
            ) by {
                assert(front[j] == list[j]);
                assert(front.contains(front[j]));
            }
            lemma_find_where(list, equal_to(last), front.len() as int);
        }
        assert forall|i: int, j: int| 0 <= i < j < all.len() implies find_where(
            list,
            equal_to(#[trigger] all[i]),
        ) < find_where(list, equal_to(#[trigger] all[j])) by {
            assert(all[i] == kept[i]);
            if j < kept.len() {
                assert(all[j] == kept[j]);
            }
        }
        assert(all.no_duplicates()) by {
            assert forall|i: int, j: int| 0 <= i < all.len() && 0 <= j < all.len() && i != j
                implies all[i] != all[j] by {
                if i < j {
                    assert(find_where(list, equal_to(all[i])) < find_where(list, equal_to(all[j])));
                } else {
                    assert(find_where(list, equal_to(all[j])) < find_where(list, equal_to(all[i])));
                }
            }
        }
    }
}

/// No token is shown longer than the limit and its dots, and a short one is shown whole.
pub proof fn truncation_keeps_the_limit(token: Seq<char>, max: int)
    requires
        max >= 0,
    ensures
        truncated(token, max).len() <= max + 3,
        token.len() <= max ==> truncated(token, max) == token,
        token.len() > max ==> token.take(max).is_prefix_of(truncated(token, max)),
{
    reveal_strlit("...");
    if token.len() > max {
        assert(truncated(token, max).take(max) =~= token.take(max));
    }
}

/// Lines in a file, each with `end` behind it.
pub open spec fn file_of(lines: Seq<Seq<u8>>, end: Seq<u8>) -> Seq<u8>
    decreases lines.len(),
{
    if lines.len() == 0 {
        Seq::empty()
    } else {
        lines[0] + end + file_of(lines.skip(1), end)
    }
}

/// Lines that `end` ends: a newline, perhaps with a carriage return before it.
pub open spec fn can_stand_in_file(lines: Seq<Seq<u8>>, end: Seq<u8>) -> bool {
    ||| end == seq![0x0du8, 0x0au8] && forall|i: int|
        0 <= i < lines.len() ==> !(#[trigger] lines[i]).contains(0x0a)
    ||| end == seq![0x0au8] && forall|i: int|
        0 <= i < lines.len() ==> !(#[trigger] lines[i]).contains(0x0a) && (lines[i].len() > 0
            ==> lines[i].last() != 0x0d)
}

/// The lines of a file are read back as they were written, whichever way they end, and so is a last
/// line without an end.
pub proof fn lines_of_a_file_read_back(lines: Seq<Seq<u8>>, end: Seq<u8>, last: Seq<u8>)
    requires
        can_stand_in_file(lines, end),
        !last.contains(0x0a),
    ensures
        raw_lines(file_of(lines, end) + last) == (if last.len() == 0 {
            lines
        } else {
            lines.push(last)
        }),
    decreases lines.len(),
{
    let all = file_of(lines, end) + last;
    if lines.len() == 0 {
        assert(all =~= last);
        assert forall|j: int| 0 <= j < last.len() implies !newline()(#[trigger] last[j]) by {
            assert(last.contains(last[j]));
        }
        lemma_find_where(last, newline(), last.len() as int);
        assert(raw_lines(all) =~= if last.len() == 0 {
            lines
        } else {
            lines.push(last)
        });
    } else {
        let tail = lines.skip(1);
        assert forall|i: int| 0 <= i < tail.len() implies !(#[trigger] tail[i]).contains(0x0a) && (
        end == seq![0x0au8] && tail[i].len() > 0 ==> tail[i].last() != 0x0d) by {
            assert(tail[i] == lines[i + 1]);
            assert(!lines[i + 1].contains(0x0a));
            if end == seq![0x0au8] {
                assert(end.len() != seq![0x0du8, 0x0au8].len());
            }
        }
        lines_of_a_file_read_back(tail, end, last);
        let first = lines[0];
        let rest = file_of(tail, end) + last;
        assert(all =~= first + end + rest);
        let n = first.len() + end.len() - 1;
        assert(!first.contains(0x0a));
        assert forall|j: int| 0 <= j < n implies !newline()(#[trigger] all[j]) by {
            if j < first.len() {
                assert(all[j] == first[j]);
                assert(first.contains(first[j]));
            } else {
                assert(all[j] == end[0]);
            }
        }
        assert(all[n] == 0x0a);
        lemma_find_where(all, newline(), n);
        assert(all.skip(n + 1) =~= rest);
        let head = all.take(n);
        if end == seq![0x0au8] {
            assert(end.len() == 1);
            assert(head =~= first);
            assert(without_return(head) == first) by {
                if end == seq![0x0du8, 0x0au8] {
                    assert(end.len() == 2);
                }
            }
        } else {
            assert(head =~= first.push(0x0d));
            assert(without_return(head) =~= first);
        }
        assert(seq![first] + raw_lines(rest) =~= if last.len() == 0 {
            lines
        } else {
            lines.push(last)
        });
    }
}

/// Reading goes up to the first line that is not UTF-8.
pub proof fn readable_lines_come_before_the_first_unreadable(
    a: Seq<Seq<u8>>,
    bad: Seq<u8>,
    b: Seq<Seq<u8>>,
)
    requires
        forall|i: int| 0 <= i < a.len() ==> valid_utf8(#[trigger] a[i]),
        !valid_utf8(bad),
    ensures
        readable_lines(a) == a.map_values(|l: Seq<u8>| decode_utf8(l)),
        readable_lines(a.push(bad) + b) == readable_lines(a),
    decreases a.len(),
{
    let all = a.push(bad) + b;
    let text = |l: Seq<u8>| decode_utf8(l);
    if a.len() == 0 {
        assert(all[0] == bad);
        assert(readable_lines(a) =~= a.map_values(text));
    } else {
        let tail = a.skip(1);
        assert forall|i: int| 0 <= i < tail.len() implies valid_utf8(#[trigger] tail[i]) by {
            assert(tail[i] == a[i + 1]);
        }
        readable_lines_come_before_the_first_unreadable(tail, bad, b);
        assert(all.skip(1) =~= tail.push(bad) + b);
        assert(valid_utf8(a[0]) && all[0] == a[0]);
        assert(seq![decode_utf8(a[0])] + tail.map_values(text) =~= a.map_values(text));
    }
}

proof fn lemma_all_are_distinct(list: Seq<Seq<char>>)
    requires
        list.no_duplicates(),
        forall|i: int| 0 <= i < list.len() ==> trimmed(#[trigger] list[i]).len() > 0,
    ensures
        distinct(list) == list,
    decreases list.len(),
{
    if list.len() > 0 {
        let front = list.drop_last();
        assert(front.no_duplicates()) by {
            assert forall|i: int, j: int| 0 <= i < front.len() && 0 <= j < front.len() && i != j
                implies front[i] != front[j] by {
                assert(front[i] == list[i] && front[j] == list[j]);
            }
        }
        assert forall|i: int| 0 <= i < front.len() implies trimmed(#[trigger] front[i]).len() > 0 by {
            assert(front[i] == list[i]);
        }
        lemma_all_are_distinct(front);
        assert(trimmed(list[list.len() - 1]).len() > 0);
        if front.contains(list.last()) {
            let k = choose|k: int| 0 <= k < front.len() && front[k] == list.last();
            assert(list[k] == list[list.len() - 1]);
        }
        assert(front.push(list.last()) =~= list);
    }
}

/// Tokens that were written one on a line are read back as they were, all of them and in their order.
pub proof fn token_files_read_back(lines: Seq<Seq<u8>>, end: Seq<u8>)
    requires
        can_stand_in_file(lines, end),
        forall|i: int|
            0 <= i < lines.len() ==> valid_utf8(#[trigger] lines[i]) && trimmed(
                decode_utf8(lines[i]),
            ).len() > 0,
        lines.no_duplicates(),
    ensures
        tokens_in(file_of(lines, end)) == lines.map_values(|l: Seq<u8>| decode_utf8(l)),
{
    let none = Seq::<u8>::empty();
    let texts = lines.map_values(|l: Seq<u8>| decode_utf8(l));
    lines_of_a_file_read_back(lines, end, none);
    assert(file_of(lines, end) + none =~= file_of(lines, end));
    lemma_readable(lines);
    assert(texts.no_duplicates()) by {
        assert forall|i: int, j: int| 0 <= i < texts.len() && 0 <= j < texts.len() && i != j
            implies texts[i] != texts[j] by {
            assert(valid_utf8(lines[i]) && valid_utf8(lines[j]));
            decode_utf8_encode_utf8(lines[i]);
            decode_utf8_encode_utf8(lines[j]);
        }
    }
    assert forall|i: int| 0 <= i < texts.len() implies trimmed(#[trigger] texts[i]).len() > 0 by {
        assert(trimmed(decode_utf8(lines[i])).len() > 0);
    }
    lemma_all_are_distinct(texts);
}

proof fn lemma_readable(a: Seq<Seq<u8>>)
    requires
        forall|i: int| 0 <= i < a.len() ==> valid_utf8(#[trigger] a[i]),
    ensures
        readable_lines(a) == a.map_values(|l: Seq<u8>| decode_utf8(l)),
    decreases a.len(),
{
    let text = |l: Seq<u8>| decode_utf8(l);
    if a.len() == 0 {
        assert(readable_lines(a) =~= a.map_values(text));
    } else {
        let tail = a.skip(1);
        assert forall|i: int| 0 <= i < tail.len() implies valid_utf8(#[trigger] tail[i]) by {
            assert(tail[i] == a[i + 1]);
        }
        lemma_readable(tail);
        assert(valid_utf8(a[0]));
        assert(seq![decode_utf8(a[0])] + tail.map_values(text) =~= a.map_values(text));
    }
}

} // verus!
