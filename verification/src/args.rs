//! The arguments of the shell's commands.

use crate::number::{
    decimal, is_digit, lemma_decimal, number_up_to, parse_number, written_numbers_read_back,
};
use crate::text::{
    after_prefix, chars_of, find_char, is_blank, is_space, is_word, join, joined,
    joined_words_come_apart, lemma_find_char, lemma_trimmed_start, position_from,
    prefixes_come_off, same, split_first, split_once, split_words, strip_prefix, text_of, texts,
    trim_start, trimmed_start, words,
};
use crate::unicode::{lowercase, to_lowercase};
use vstd::prelude::*;
use vstd::string::*;

verus! {

/// The name given by a leading `--name`, and what follows it. A name in quotation marks runs to
/// the closing mark, another to the next blank.
pub open spec fn name_flag(arg: Seq<char>) -> (Option<Seq<char>>, Seq<char>) {
    match after_prefix(arg, "--name "@) {
        None => (None, arg),
        Some(rest) => {
            let rest = trimmed_start(rest);
            let quoted = rest.skip(1);
            let end = find_char(quoted, '"');
            if rest.len() > 0 && rest[0] == '"' && end < quoted.len() {
                (Some(quoted.take(end)), trimmed_start(quoted.skip(end + 1)))
            } else {
                match split_once(rest, ' ') {
                    Some((name, content)) => (Some(name), trimmed_start(content)),
                    None => (Some(rest), ""@),
                }
            }
        },
    }
}

/// `w` announces a limit.
pub open spec fn is_limit_flag(w: Seq<char>) -> bool {
    w == "-n"@ || w == "--last"@
}

/// The list starts with a limit flag and its number.
pub open spec fn starts_with_limit(list: Seq<Seq<char>>) -> bool {
    &&& list.len() > 1
    &&& is_limit_flag(list[0])
    &&& number_up_to(list[1], usize::MAX as nat) is Ok
}

/// The last limit among the words of a list command, and its other words.
pub open spec fn limit_and_filter(list: Seq<Seq<char>>) -> (Option<nat>, Seq<Seq<char>>)
    decreases list.len(),
{
    if list.len() == 0 {
        (None, Seq::empty())
    } else if starts_with_limit(list) {
        let (limit, filter) = limit_and_filter(list.skip(2));
        match limit {
            Some(n) => (Some(n), filter),
            None => (Some(number_up_to(list[1], usize::MAX as nat)->Ok_0), filter),
        }
    } else {
        let (limit, filter) = limit_and_filter(list.skip(1));
        (limit, seq![list[0]] + filter)
    }
}

/// The limit that the arguments of a list command set.
pub open spec fn list_limit(arg: Seq<char>) -> Option<nat> {
    limit_and_filter(words(arg)).0
}

/// The filter that the arguments of a list command hold, as typed.
pub open spec fn list_filter(arg: Seq<char>) -> Option<Seq<char>> {
    let filter = limit_and_filter(words(arg)).1;
    if filter.len() == 0 {
        None
    } else {
        Some(joined(filter, " "@))
    }
}

/// The name given by a leading `--name`, and the content that follows.
pub fn parse_name_flag<'a>(arg: &'a str) -> (r: (Option<String>, &'a str))
    ensures
        (text_of(r.0), r.1@) == name_flag(arg@),
{
    let rest = match strip_prefix(arg, "--name ") {
        Some(rest) => rest,
        None => {
            return (None, arg);
        },
    };
    let rest = trim_start(rest);
    let cs = chars_of(rest);
    if cs.len() > 0 && cs[0] == '"' {
        let end = position_from(&cs, 1, '"');
        let ghost quoted = rest@.skip(1);
        proof {
            assert forall|j: int| 0 <= j < end - 1 implies #[trigger] quoted[j] != '"' by {
                assert(quoted[j] == cs@[j + 1]);
            }
            lemma_find_char(quoted, '"', end - 1);
        }
        if end < cs.len() {
            let name = rest.substring_char(1, end).to_owned();
            let content = rest.substring_char(end + 1, cs.len());
            assert(name@ =~= quoted.take(end - 1));
            assert(content@ =~= quoted.skip(end as int));
            return (Some(name), trim_start(content));
        }
    }
    match split_first(rest, ' ') {
        Some((name, content)) => (Some(name.to_owned()), trim_start(content)),
        None => (Some(rest.to_owned()), ""),
    }
}

/// The limit and the filter of a list command, the filter as typed.
pub fn split_list_args(arg: &str) -> (r: (Option<usize>, Option<String>))
    ensures
        match r.0 {
            Some(n) => list_limit(arg@) == Some(n as nat),
            None => list_limit(arg@) is None,
        },
        text_of(r.1) == list_filter(arg@),
{
    let parts = split_words(arg);
    let ghost all = words(arg@);
    let mut limit: Option<usize> = None;
    let mut filter: Vec<String> = Vec::new();
    let mut i: usize = 0;
    assert(all.skip(0) =~= all);
    assert(texts(filter@) =~= Seq::empty());
    assert(texts(filter@) + limit_and_filter(all).1 =~= limit_and_filter(all).1);
    while i < parts.len()
        invariant
            i <= parts@.len(),
            texts(parts@) == all,
            limit_and_filter(all).1 == texts(filter@) + limit_and_filter(all.skip(i as int)).1,
            match limit_and_filter(all.skip(i as int)).0 {
                Some(n) => limit_and_filter(all).0 == Some(n),
                None => match limit {
                    Some(n) => limit_and_filter(all).0 == Some(n as nat),
                    None => limit_and_filter(all).0 is None,
                },
            },
        decreases parts@.len() - i,
    {
        let ghost rest = all.skip(i as int);
        assert(rest[0] == parts@[i as int]@);
        if (same(parts[i].as_str(), "-n") || same(parts[i].as_str(), "--last")) && i < parts.len()
            - 1 {
            assert(rest[1] == parts@[i + 1]@);
            if let Ok(n) = parse_number(parts[i + 1].as_str(), usize::MAX as u64) {
                assert(starts_with_limit(rest));
                assert(rest.skip(2) =~= all.skip(i + 2));
                limit = Some(n as usize);
                i += 2;
                continue;
            }
        }
        assert(!starts_with_limit(rest));
        assert(rest.skip(1) =~= all.skip(i + 1));
        let ghost before = filter@;
        filter.push(parts[i].as_str().to_owned());
        assert(texts(filter@) =~= texts(before).push(rest[0]));
        assert(texts(filter@) + limit_and_filter(all.skip(i + 1)).1 =~= texts(before) + (seq![
            rest[0],
        ] + limit_and_filter(all.skip(i + 1)).1));
        i += 1;
    }
    assert(all.skip(i as int) =~= Seq::empty());
    assert(texts(filter@) =~= limit_and_filter(all).1);
    if filter.len() == 0 {
        (limit, None)
    } else {
        (limit, Some(join(&filter, " ")))
    }
}

/// The limit and the filter of a list command, the filter in lower case.
pub fn parse_list_args(arg: &str) -> (r: (Option<usize>, Option<String>))
    ensures
        match r.0 {
            Some(n) => list_limit(arg@) == Some(n as nat),
            None => list_limit(arg@) is None,
        },
        match r.1 {
            Some(f) => list_filter(arg@) is Some && f@ == lowercase(list_filter(arg@)->0),
            None => list_filter(arg@) is None,
        },
{
    let (limit, filter) = split_list_args(arg);
    match filter {
        Some(f) => (limit, Some(to_lowercase(f.as_str()))),
        None => (limit, None),
    }
}

/// A name in quotation marks is read back as it was written, blanks and all, and so is the
/// content behind it.
pub proof fn quoted_names_read_back(name: Seq<char>, content: Seq<char>)
    requires
        forall|i: int| 0 <= i < name.len() ==> #[trigger] name[i] != '"',
        trimmed_start(content) == content,
    ensures
        name_flag("--name \""@ + name + "\" "@ + content) == (Some(name), content),
{
    let arg = "--name \""@ + name + "\" "@ + content;
    reveal_strlit("--name \"");
    reveal_strlit("--name ");
    reveal_strlit("\" ");
    assert("--name "@.is_prefix_of(arg)) by {
        assert("--name "@ =~= arg.subrange(0, 7));
    }
    let rest = arg.skip(7);
    lemma_trimmed_start(rest, 0);
    assert(rest.skip(0) =~= rest);
    let quoted = rest.skip(1);
    assert(quoted =~= name + "\" "@ + content);
    assert forall|j: int| 0 <= j < name.len() implies #[trigger] quoted[j] != '"' by {
        assert(quoted[j] == name[j]);
    }
    lemma_find_char(quoted, '"', name.len() as int);
    assert(quoted.take(name.len() as int) =~= name);
    let behind = quoted.skip(name.len() as int + 1);
    assert(behind =~= seq![' '] + content);
    assert(behind.skip(1) =~= content);
    assert(trimmed_start(behind) == trimmed_start(content));
}

/// A name in quotation marks needs nothing behind it.
pub proof fn quoted_names_stand_alone(name: Seq<char>)
    requires
        forall|i: int| 0 <= i < name.len() ==> #[trigger] name[i] != '"',
    ensures
        name_flag("--name \""@ + name + "\""@) == (Some(name), ""@),
{
    let arg = "--name \""@ + name + "\""@;
    reveal_strlit("--name \"");
    reveal_strlit("--name ");
    reveal_strlit("\"");
    reveal_strlit("");
    assert("--name "@.is_prefix_of(arg)) by {
        assert("--name "@ =~= arg.subrange(0, 7));
    }
    let rest = arg.skip(7);
    lemma_trimmed_start(rest, 0);
    assert(rest.skip(0) =~= rest);
    let quoted = rest.skip(1);
    assert(quoted =~= name + "\""@);
    assert forall|j: int| 0 <= j < name.len() implies #[trigger] quoted[j] != '"' by {
        assert(quoted[j] == name[j]);
    }
    lemma_find_char(quoted, '"', name.len() as int);
    assert(quoted.take(name.len() as int) =~= name);
    assert(quoted.skip(name.len() as int + 1) =~= ""@);
}

/// A name without blanks needs no quotation marks, unless it starts with one or with white space.
pub proof fn plain_names_read_back(name: Seq<char>, content: Seq<char>)
    requires
        name.len() > 0,
        !is_space(name[0]),
        name[0] != '"',
        forall|i: int| 0 <= i < name.len() ==> #[trigger] name[i] != ' ',
        trimmed_start(content) == content,
    ensures
        name_flag("--name "@ + name + " "@ + content) == (Some(name), content),
        name_flag("--name "@ + name) == (Some(name), ""@),
{
    reveal_strlit("--name ");
    reveal_strlit(" ");
    let long = "--name "@ + name + " "@ + content;
    let short = "--name "@ + name;
    assert("--name "@.is_prefix_of(long)) by {
        assert("--name "@ =~= long.subrange(0, 7));
    }
    assert("--name "@.is_prefix_of(short)) by {
        assert("--name "@ =~= short.subrange(0, 7));
    }
    let a = long.skip(7);
    let b = short.skip(7);
    assert(a =~= name + " "@ + content);
    assert(b =~= name);
    assert(!is_space(name[0]));
    assert(a[0] == name[0]);
    assert forall|j: int| 0 <= j < name.len() implies #[trigger] a[j] != ' ' by {
        assert(a[j] == name[j]);
    }
    lemma_find_char(a, ' ', name.len() as int);
    lemma_find_char(b, ' ', name.len() as int);
    assert(a.take(name.len() as int) =~= name);
    assert(a.skip(name.len() as int + 1) =~= content);
}

/// White space before a name and before the content behind it does not count.
pub proof fn names_are_read_past_white_space(gap: Seq<char>, text: Seq<char>, content: Seq<char>)
    requires
        is_blank(gap),
    ensures
        name_flag("--name "@ + gap + text) == name_flag("--name "@ + text),
        ({
            let quoted = forall|i: int| 0 <= i < text.len() ==> #[trigger] text[i] != '"';
            quoted ==> name_flag("--name \""@ + text + "\""@ + gap + content) == (
                Some(text),
                trimmed_start(content),
            )
        }),
        ({
            let plain = text.len() > 0 && !is_space(text[0]) && text[0] != '"' && forall|i: int|
                0 <= i < text.len() ==> #[trigger] text[i] != ' ';
            plain ==> name_flag("--name "@ + text + " "@ + gap + content) == (
                Some(text),
                trimmed_start(content),
            )
        }),
{
    reveal_strlit("--name ");
    reveal_strlit("--name \"");
    reveal_strlit("\"");
    reveal_strlit(" ");
    let long = "--name "@ + gap + text;
    assert(long =~= "--name "@ + (gap + text));
    prefixes_come_off("--name "@, gap + text);
    prefixes_come_off("--name "@, text);
    lemma_leading_blanks(gap, text);
    lemma_leading_blanks(gap, content);
    if forall|i: int| 0 <= i < text.len() ==> #[trigger] text[i] != '"' {
        let arg = "--name \""@ + text + "\""@ + gap + content;
        let rest = "\""@ + text + "\""@ + gap + content;
        assert(arg =~= "--name "@ + rest);
        prefixes_come_off("--name "@, rest);
        lemma_trimmed_start(rest, 0);
        assert(rest.skip(0) =~= rest);
        let quoted = rest.skip(1);
        assert forall|j: int| 0 <= j < text.len() implies #[trigger] quoted[j] != '"' by {
            assert(quoted[j] == text[j]);
        }
        lemma_find_char(quoted, '"', text.len() as int);
        assert(quoted.take(text.len() as int) =~= text);
        assert(quoted.skip(text.len() as int + 1) =~= gap + content);
    }
    if text.len() > 0 && !is_space(text[0]) && text[0] != '"' && forall|i: int|
        0 <= i < text.len() ==> #[trigger] text[i] != ' ' {
        let arg = "--name "@ + text + " "@ + gap + content;
        let rest = text + " "@ + gap + content;
        assert(arg =~= "--name "@ + rest);
        prefixes_come_off("--name "@, rest);
        assert(rest[0] == text[0]);
        assert forall|j: int| 0 <= j < text.len() implies #[trigger] rest[j] != ' ' by {
            assert(rest[j] == text[j]);
        }
        lemma_find_char(rest, ' ', text.len() as int);
        assert(rest.take(text.len() as int) =~= text);
        assert(rest.skip(text.len() as int + 1) =~= gap + content);
    }
}

proof fn lemma_leading_blanks(gap: Seq<char>, text: Seq<char>)
    requires
        is_blank(gap),
    ensures
        trimmed_start(gap + text) == trimmed_start(text),
    decreases gap.len(),
{
    let all = gap + text;
    if gap.len() == 0 {
        assert(all =~= text);
    } else {
        let tail = gap.skip(1);
        assert forall|i: int| 0 <= i < tail.len() implies is_space(#[trigger] tail[i]) by {
            assert(tail[i] == gap[i + 1]);
        }
        lemma_leading_blanks(tail, text);
        assert(is_space(gap[0]) && all[0] == gap[0]);
        assert(all.skip(1) =~= tail + text);
    }
}

/// A quotation mark that is not closed is part of the name.
pub proof fn unclosed_marks_are_part_of_the_name(name: Seq<char>, content: Seq<char>)
    requires
        forall|i: int| 0 <= i < name.len() ==> #[trigger] name[i] != '"' && name[i] != ' ',
        forall|i: int| 0 <= i < content.len() ==> #[trigger] content[i] != '"',
    ensures
        name_flag("--name \""@ + name + " "@ + content) == (
            Some("\""@ + name),
            trimmed_start(content),
        ),
{
    reveal_strlit("--name ");
    reveal_strlit("--name \"");
    reveal_strlit("\"");
    reveal_strlit(" ");
    let n = name.len() as int;
    let rest = "\""@ + name + " "@ + content;
    assert("--name \""@ + name + " "@ + content =~= "--name "@ + rest);
    prefixes_come_off("--name "@, rest);
    lemma_trimmed_start(rest, 0);
    assert(rest.skip(0) =~= rest);
    let quoted = rest.skip(1);
    assert forall|j: int| 0 <= j < quoted.len() implies #[trigger] quoted[j] != '"' by {
        if j < n {
            assert(quoted[j] == name[j]);
        } else if j > n {
            assert(quoted[j] == content[j - n - 1]);
        }
    }
    lemma_find_char(quoted, '"', quoted.len() as int);
    assert forall|j: int| 0 <= j < n + 1 implies #[trigger] rest[j] != ' ' by {
        if j > 0 {
            assert(rest[j] == name[j - 1]);
        }
    }
    lemma_find_char(rest, ' ', n + 1);
    assert(rest.take(n + 1) =~= "\""@ + name);
    assert(rest.skip(n + 2) =~= content);
}

/// Arguments that do not start with `--name` are content as they stand.
pub proof fn content_without_a_name_is_unchanged(arg: Seq<char>)
    requires
        !"--name "@.is_prefix_of(arg),
    ensures
        name_flag(arg) == (None::<Seq<char>>, arg),
{
}

proof fn lemma_filter_words(filter: Seq<Seq<char>>, rest: Seq<Seq<char>>)
    requires
        forall|i: int| 0 <= i < filter.len() ==> !is_limit_flag(#[trigger] filter[i]),
    ensures
        limit_and_filter(filter + rest) == (
            limit_and_filter(rest).0,
            filter + limit_and_filter(rest).1,
        ),
    decreases filter.len(),
{
    let all = filter + rest;
    if filter.len() == 0 {
        assert(all =~= rest);
        assert(filter + limit_and_filter(rest).1 =~= limit_and_filter(rest).1);
    } else {
        assert(!is_limit_flag(filter[0]));
        assert(all[0] == filter[0]);
        let tail = filter.skip(1);
        assert forall|i: int| 0 <= i < tail.len() implies !is_limit_flag(#[trigger] tail[i]) by {
            assert(tail[i] == filter[i + 1]);
        }
        lemma_filter_words(tail, rest);
        assert(all.skip(1) =~= tail + rest);
        assert(seq![all[0]] + (tail + limit_and_filter(rest).1) =~= filter + limit_and_filter(
            rest,
        ).1);
    }
}

/// A limit may stand before the filter, behind it, or among its words.
pub proof fn limits_stand_anywhere(
    before: Seq<Seq<char>>,
    after: Seq<Seq<char>>,
    flag: Seq<char>,
    n: nat,
)
    requires
        n <= usize::MAX,
        is_limit_flag(flag),
        forall|i: int| 0 <= i < before.len() ==> !is_limit_flag(#[trigger] before[i]),
        forall|i: int| 0 <= i < after.len() ==> !is_limit_flag(#[trigger] after[i]),
    ensures
        limit_and_filter(before + seq![flag, decimal(n)] + after) == (Some(n), before + after),
{
    let limit = seq![flag, decimal(n)];
    let none = Seq::<Seq<char>>::empty();
    written_numbers_read_back(n, usize::MAX as nat);
    lemma_filter_words(after, none);
    assert(after + none =~= after);
    assert(limit_and_filter(after) == (None::<nat>, after));
    assert((limit + after).skip(2) =~= after);
    assert(starts_with_limit(limit + after));
    assert(limit_and_filter(limit + after) == (Some(n), after));
    lemma_filter_words(before, limit + after);
    assert(before + limit + after =~= before + (limit + after));
}

/// The same of what is typed: words joined by blanks, with a limit before, behind or among them,
/// are the filter, and the limit is the number.
pub proof fn typed_limits_stand_anywhere(
    before: Seq<Seq<char>>,
    after: Seq<Seq<char>>,
    flag: Seq<char>,
    n: nat,
)
    requires
        n <= usize::MAX,
        is_limit_flag(flag),
        forall|i: int|
            0 <= i < before.len() ==> is_word(#[trigger] before[i]) && !is_limit_flag(before[i]),
        forall|i: int|
            0 <= i < after.len() ==> is_word(#[trigger] after[i]) && !is_limit_flag(after[i]),
    ensures
        ({
            let arg = joined(before + seq![flag, decimal(n)] + after, " "@);
            &&& list_limit(arg) == Some(n)
            &&& list_filter(arg) == (if before.len() + after.len() == 0 {
                None
            } else {
                Some(joined(before + after, " "@))
            })
        }),
{
    let all = before + seq![flag, decimal(n)] + after;
    limits_stand_anywhere(before, after, flag, n);
    reveal_strlit("-n");
    reveal_strlit("--last");
    lemma_decimal(n);
    assert(is_word(decimal(n))) by {
        assert forall|i: int| 0 <= i < decimal(n).len() implies !is_space(
            #[trigger] decimal(n)[i],
        ) by {
            assert(is_digit(decimal(n)[i]));
        }
    }
    assert(is_word(flag));
    assert forall|i: int| 0 <= i < all.len() implies is_word(#[trigger] all[i]) by {
        if i < before.len() {
            assert(all[i] == before[i]);
        } else if i == before.len() {
            assert(all[i] == flag);
        } else if i == before.len() + 1 {
            assert(all[i] == decimal(n));
        } else {
            assert(all[i] == after[i - before.len() - 2]);
        }
    }
    joined_words_come_apart(all);
}

/// A flag with anything that reads as a number behind it sets the limit, of several the last one; a
/// flag with something else or nothing behind it is a word like others.
pub proof fn the_last_limit_counts(
    before: Seq<Seq<char>>,
    flag: Seq<char>,
    number: Seq<char>,
    after: Seq<Seq<char>>,
)
    requires
        flag == "-n"@ || flag == "--last"@,
        forall|i: int|
            0 <= i < before.len() ==> #[trigger] before[i] != "-n"@ && before[i] != "--last"@,
    ensures
        number_up_to(number, usize::MAX as nat) matches Ok(n) ==> limit_and_filter(
            before + seq![flag, number] + after,
        ) == (
            if limit_and_filter(after).0 is Some {
                limit_and_filter(after).0
            } else {
                Some(n)
            },
            before + limit_and_filter(after).1,
        ),
        number_up_to(number, usize::MAX as nat) is Err ==> limit_and_filter(
            before + seq![flag, number] + after,
        ) == (
            limit_and_filter(seq![number] + after).0,
            before + seq![flag] + limit_and_filter(seq![number] + after).1,
        ),
        limit_and_filter(before.push(flag)) == (None::<nat>, before.push(flag)),
{
    let pair = seq![flag, number];
    let rest = pair + after;
    assert forall|i: int| 0 <= i < before.len() implies !is_limit_flag(#[trigger] before[i]) by {}
    lemma_filter_words(before, rest);
    assert(before + pair + after =~= before + rest);
    assert(rest.skip(2) =~= after);
    assert(rest.skip(1) =~= seq![number] + after);
    assert(rest[0] == flag && rest[1] == number);
    let tail = limit_and_filter(seq![number] + after).1;
    assert(before + (seq![flag] + tail) =~= before + seq![flag] + tail);
    let one = seq![flag];
    let none = Seq::<Seq<char>>::empty();
    lemma_filter_words(before, one);
    assert(one.skip(1) =~= none);
    assert(limit_and_filter(none) == (None::<nat>, none));
    assert(limit_and_filter(one) == (None::<nat>, one + none));
    assert(one + none =~= one);
    assert(before + one =~= before.push(flag));
}

/// Words without a limit among them are the filter, and set no limit.
pub proof fn typed_filters_read_back(list: Seq<Seq<char>>)
    requires
        forall|i: int|
            0 <= i < list.len() ==> is_word(#[trigger] list[i]) && list[i] != "-n"@ && list[i]
                != "--last"@,
    ensures
        list_limit(joined(list, " "@)) is None,
        list_filter(joined(list, " "@)) == (if list.len() == 0 {
            None
        } else {
            Some(joined(list, " "@))
        }),
{
    let none = Seq::<Seq<char>>::empty();
    joined_words_come_apart(list);
    lemma_filter_words(list, none);
    assert(list + none =~= list);
}

} // verus!
