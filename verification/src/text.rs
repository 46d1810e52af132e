//! Text as sequences of characters: trimming, searching, splitting, joining.

use vstd::prelude::*;
use vstd::string::*;

verus! {

/// The characters with Unicode's `White_Space` property.
pub open spec fn is_space(c: char) -> bool {
    let v = c as u32;
    ||| 0x09 <= v <= 0x0d
    ||| v == 0x20
    ||| v == 0x85
    ||| v == 0xa0
    ||| v == 0x1680
    ||| 0x2000 <= v <= 0x200a
    ||| v == 0x2028
    ||| v == 0x2029
    ||| v == 0x202f
    ||| v == 0x205f
    ||| v == 0x3000
}

/// `s` without its leading white space.
pub open spec fn trimmed_start(s: Seq<char>) -> Seq<char>
    decreases s.len(),
{
    if s.len() > 0 && is_space(s[0]) {
        trimmed_start(s.skip(1))
    } else {
        s
    }
}

/// `s` without its trailing white space.
pub open spec fn trimmed_end(s: Seq<char>) -> Seq<char>
    decreases s.len(),
{
    if s.len() > 0 && is_space(s.last()) {
        trimmed_end(s.drop_last())
    } else {
        s
    }
}

/// `s` without its leading and trailing white space.
pub open spec fn trimmed(s: Seq<char>) -> Seq<char> {
    trimmed_end(trimmed_start(s))
}

/// The first position in `s` whose item satisfies `p`, or `s.len()` when none does.
pub open spec fn find_where<T>(s: Seq<T>, p: spec_fn(T) -> bool) -> int
    decreases s.len(),
{
    if s.len() == 0 || p(s[0]) {
        0
    } else {
        1 + find_where(s.skip(1), p)
    }
}

/// The predicate that holds of `c` alone.
pub open spec fn only(c: char) -> spec_fn(char) -> bool {
    |x: char| x == c
}

/// The predicate that holds of white space.
pub open spec fn space() -> spec_fn(char) -> bool {
    |x: char| is_space(x)
}

/// The first position of `c` in `s`, or `s.len()` when it does not occur.
pub open spec fn find_char(s: Seq<char>, c: char) -> int {
    find_where(s, only(c))
}

/// The last position of `c` in `s`, or -1 when it does not occur.
pub open spec fn find_last_char(s: Seq<char>, c: char) -> int
    decreases s.len(),
{
    if s.len() == 0 {
        -1
    } else if s.last() == c {
        s.len() - 1
    } else {
        find_last_char(s.drop_last(), c)
    }
}

/// What stands before and after the first `c` of `s`.
pub open spec fn split_once(s: Seq<char>, c: char) -> Option<(Seq<char>, Seq<char>)> {
    let i = find_char(s, c);
    if i < s.len() {
        Some((s.take(i), s.skip(i + 1)))
    } else {
        None
    }
}

/// What stands before and after the last `c` of `s`.
pub open spec fn rsplit_once(s: Seq<char>, c: char) -> Option<(Seq<char>, Seq<char>)> {
    let i = find_last_char(s, c);
    if i >= 0 {
        Some((s.take(i), s.skip(i + 1)))
    } else {
        None
    }
}

/// What follows `p` in `s`, when `s` starts with `p`.
pub open spec fn after_prefix(s: Seq<char>, p: Seq<char>) -> Option<Seq<char>> {
    if p.is_prefix_of(s) {
        Some(s.skip(p.len() as int))
    } else {
        None
    }
}

/// The first position at which `p` occurs in `s`.
pub open spec fn find_text(s: Seq<char>, p: Seq<char>) -> Option<nat>
    decreases s.len(),
{
    if p.is_prefix_of(s) {
        Some(0)
    } else if s.len() == 0 {
        None
    } else {
        match find_text(s.skip(1), p) {
            Some(i) => Some(i + 1),
            None => None,
        }
    }
}

/// `p` occurs somewhere in `s`.
pub open spec fn contains_text(s: Seq<char>, p: Seq<char>) -> bool {
    exists|i: int| 0 <= i <= s.len() - p.len() && #[trigger] s.subrange(i, i + p.len()) == p
}

/// The pieces of `s` between its occurrences of `c`.
pub open spec fn pieces(s: Seq<char>, c: char) -> Seq<Seq<char>>
    decreases s.len(),
{
    let i = find_char(s, c);
    if 0 <= i < s.len() {
        seq![s.take(i)] + pieces(s.skip(i + 1), c)
    } else {
        seq![s]
    }
}

/// The maximal runs of characters of `s` that are not white space.
pub open spec fn words(s: Seq<char>) -> Seq<Seq<char>>
    decreases s.len(),
{
    if s.len() == 0 {
        Seq::empty()
    } else if is_space(s[0]) {
        words(s.skip(1))
    } else {
        let n = find_where(s, space());
        if 0 < n <= s.len() {
            seq![s.take(n)] + words(s.skip(n))
        } else {
            Seq::empty()
        }
    }
}

/// The texts of `list`, with `sep` between each two.
pub open spec fn joined(list: Seq<Seq<char>>, sep: Seq<char>) -> Seq<char>
    decreases list.len(),
{
    if list.len() == 0 {
        Seq::empty()
    } else if list.len() == 1 {
        list[0]
    } else {
        joined(list.drop_last(), sep) + sep + list.last()
    }
}

/// The views of a list of strings.
pub open spec fn texts(list: Seq<String>) -> Seq<Seq<char>> {
    list.map_values(|s: String| s@)
}

/// The view of an optional string.
pub open spec fn text_of(s: Option<String>) -> Option<Seq<char>> {
    match s {
        Some(s) => Some(s@),
        None => None,
    }
}

/// `n` times `c`.
pub open spec fn fill(c: char, n: int) -> Seq<char> {
    Seq::new(n as nat, |i: int| c)
}

/// `s` after as many `c` as bring it to `width` characters.
pub open spec fn padded_left(s: Seq<char>, width: int, c: char) -> Seq<char> {
    if s.len() < width {
        fill(c, width - s.len()) + s
    } else {
        s
    }
}

/// `s` between as many `c` as bring it to `width` characters, the odd one at the end.
pub open spec fn centered(s: Seq<char>, width: int, c: char) -> Seq<char> {
    if s.len() < width {
        let room = width - s.len();
        fill(c, room / 2) + s + fill(c, room - room / 2)
    } else {
        s
    }
}

/// `find_where` is the position at which the predicate first holds.
pub(crate) proof fn lemma_find_where<T>(s: Seq<T>, p: spec_fn(T) -> bool, i: int)
    requires
        0 <= i <= s.len(),
        forall|j: int| 0 <= j < i ==> !p(#[trigger] s[j]),
        i == s.len() || p(s[i]),
    ensures
        find_where(s, p) == i,
    decreases i,
{
    if i > 0 {
        assert(!p(s[0]));
        let t = s.skip(1);
        assert forall|j: int| 0 <= j < i - 1 implies !p(#[trigger] t[j]) by {
            assert(t[j] == s[j + 1]);
        }
        lemma_find_where(t, p, i - 1);
    }
}

/// What `find_where` gives is that position.
pub(crate) proof fn lemma_find_where_is<T>(s: Seq<T>, p: spec_fn(T) -> bool)
    ensures
        0 <= find_where(s, p) <= s.len(),
        forall|j: int| 0 <= j < find_where(s, p) ==> !p(#[trigger] s[j]),
        find_where(s, p) < s.len() ==> p(s[find_where(s, p)]),
    decreases s.len(),
{
    if s.len() > 0 && !p(s[0]) {
        lemma_find_where_is(s.skip(1), p);
        assert forall|j: int| 0 <= j < find_where(s, p) implies !p(#[trigger] s[j]) by {
            if j > 0 {
                assert(s.skip(1)[j - 1] == s[j]);
            }
        }
    }
}

/// `find_char` is the position at which the character first occurs.
pub(crate) proof fn lemma_find_char(s: Seq<char>, c: char, i: int)
    requires
        0 <= i <= s.len(),
        forall|j: int| 0 <= j < i ==> #[trigger] s[j] != c,
        i == s.len() || s[i] == c,
    ensures
        find_char(s, c) == i,
{
    lemma_find_where(s, only(c), i);
}

/// What `find_char` gives is that position.
pub(crate) proof fn lemma_find_char_is(s: Seq<char>, c: char)
    ensures
        0 <= find_char(s, c) <= s.len(),
        forall|j: int| 0 <= j < find_char(s, c) ==> #[trigger] s[j] != c,
        find_char(s, c) < s.len() ==> s[find_char(s, c)] == c,
{
    lemma_find_where_is(s, only(c));
}

/// `find_last_char` is the position at which the character last occurs.
pub(crate) proof fn lemma_find_last_char(s: Seq<char>, c: char, i: int)
    requires
        -1 <= i < s.len(),
        forall|j: int| i < j < s.len() ==> #[trigger] s[j] != c,
        i == -1 || s[i] == c,
    ensures
        find_last_char(s, c) == i,
    decreases s.len(),
{
    if s.len() > 0 && i < s.len() - 1 {
        assert(s.last() != c);
        lemma_find_last_char(s.drop_last(), c, i);
    }
}

/// Trimming at the start drops the leading white space and no more.
pub(crate) proof fn lemma_trimmed_start(s: Seq<char>, i: int)
    requires
        0 <= i <= s.len(),
        forall|j: int| 0 <= j < i ==> is_space(#[trigger] s[j]),
        i == s.len() || !is_space(s[i]),
    ensures
        trimmed_start(s) == s.skip(i),
    decreases i,
{
    if i > 0 {
        assert(is_space(s[0]));
        let t = s.skip(1);
        assert forall|j: int| 0 <= j < i - 1 implies is_space(#[trigger] t[j]) by {
            assert(t[j] == s[j + 1]);
        }
        lemma_trimmed_start(t, i - 1);
        assert(t.skip(i - 1) =~= s.skip(i));
    } else {
        assert(s.skip(0) =~= s);
    }
}

/// Trimming at the end drops the trailing white space and no more.
pub(crate) proof fn lemma_trimmed_end(s: Seq<char>, i: int)
    requires
        0 <= i <= s.len(),
        forall|j: int| i <= j < s.len() ==> is_space(#[trigger] s[j]),
        i == 0 || !is_space(s[i - 1]),
    ensures
        trimmed_end(s) == s.take(i),
    decreases s.len(),
{
    if i < s.len() {
        assert(is_space(s.last()));
        lemma_trimmed_end(s.drop_last(), i);
        assert(s.drop_last().take(i) =~= s.take(i));
    } else {
        assert(s.take(i) =~= s);
    }
}

/// Whether `c` is white space.
pub fn is_whitespace(c: char) -> (r: bool)
    ensures
        r == is_space(c),
{
    let v: u32 = c as u32;
    (0x09 <= v && v <= 0x0d) || v == 0x20 || v == 0x85 || v == 0xa0 || v == 0x1680 || (0x2000 <= v
        && v <= 0x200a) || v == 0x2028 || v == 0x2029 || v == 0x202f || v == 0x205f || v == 0x3000
}

/// The characters of `s`.
pub fn chars_of(s: &str) -> (r: Vec<char>)
    ensures
        r@ == s@,
{
    let mut r: Vec<char> = Vec::new();
    for c in it: s.chars()
        invariant
            it.seq() == s@,
            r@ == s@.take(it.index()),
    {
        r.push(c);
    }
    r
}

/// Whether `a` and `b` are the same text.
pub fn same(a: &str, b: &str) -> (r: bool)
    ensures
        r == (a@ == b@),
{
    a.to_owned() == b.to_owned()
}

/// `s` without its leading and trailing white space.
pub fn trim(s: &str) -> (r: &str)
    ensures
        r@ == trimmed(s@),
{
    let cs = chars_of(s);
    let a = skip_space(&cs, 0);
    let ghost t = s@.skip(a as int);
    let mut b: usize = cs.len();
    while b > a && is_whitespace(cs[b - 1])
        invariant
            a <= b <= cs@.len(),
            cs@ == s@,
            forall|j: int| b <= j < cs@.len() ==> is_space(#[trigger] cs@[j]),
        decreases b,
    {
        b -= 1;
    }
    proof {
        lemma_trimmed_start(s@, a as int);
        assert forall|j: int| b - a <= j < t.len() implies is_space(#[trigger] t[j]) by {
            assert(t[j] == s@[j + a]);
        }
        lemma_trimmed_end(t, b - a);
        assert(t.take(b - a) =~= s@.subrange(a as int, b as int));
    }
    s.substring_char(a, b)
}

/// `s` without its leading white space.
pub fn trim_start(s: &str) -> (r: &str)
    ensures
        r@ == trimmed_start(s@),
{
    let cs = chars_of(s);
    let a = skip_space(&cs, 0);
    proof {
        lemma_trimmed_start(s@, a as int);
        assert(s@.skip(a as int) =~= s@.subrange(a as int, s@.len() as int));
    }
    s.substring_char(a, cs.len())
}

/// The first position at or after `from` that does not hold white space.
pub fn skip_space(cs: &Vec<char>, from: usize) -> (i: usize)
    requires
        from <= cs@.len(),
    ensures
        from <= i <= cs@.len(),
        forall|j: int| from <= j < i ==> is_space(#[trigger] cs@[j]),
        i == cs@.len() || !is_space(cs@[i as int]),
{
    let mut i: usize = from;
    while i < cs.len() && is_whitespace(cs[i])
        invariant
            from <= i <= cs@.len(),
            forall|j: int| from <= j < i ==> is_space(#[trigger] cs@[j]),
        decreases cs@.len() - i,
    {
        i += 1;
    }
    i
}

/// The first position of `c` at or after `from`.
pub fn position_from(cs: &Vec<char>, from: usize, c: char) -> (i: usize)
    requires
        from <= cs@.len(),
    ensures
        from <= i <= cs@.len(),
        forall|j: int| from <= j < i ==> #[trigger] cs@[j] != c,
        i == cs@.len() || cs@[i as int] == c,
{
    let mut i: usize = from;
    while i < cs.len() && cs[i] != c
        invariant
            from <= i <= cs@.len(),
            forall|j: int| from <= j < i ==> #[trigger] cs@[j] != c,
        decreases cs@.len() - i,
    {
        i += 1;
    }
    i
}

/// Whether `cs` holds `p` at position `at`.
fn occurs_at(cs: &Vec<char>, at: usize, p: &Vec<char>) -> (r: bool)
    requires
        at <= cs@.len(),
    ensures
        r == p@.is_prefix_of(cs@.skip(at as int)),
{
    let total: usize = cs.len();
    if p.len() > total - at {
        return false;
    }
    let mut i: usize = 0;
    while i < p.len()
        invariant
            total == cs@.len(),
            at + p@.len() <= total,
            i <= p@.len(),
            forall|j: int| 0 <= j < i ==> #[trigger] p@[j] == cs@[at + j],
        decreases p@.len() - i,
    {
        if p[i] != cs[at + i] {
            assert(cs@.skip(at as int)[i as int] == cs@[at + i]);
            return false;
        }
        i += 1;
    }
    assert(p@ =~= cs@.skip(at as int).subrange(0, p@.len() as int));
    true
}

/// Whether `s` starts with `p`.
pub fn starts_with(s: &str, p: &str) -> (r: bool)
    ensures
        r == p@.is_prefix_of(s@),
{
    let cs = chars_of(s);
    let ps = chars_of(p);
    assert(s@.skip(0) =~= s@);
    occurs_at(&cs, 0, &ps)
}

/// What follows `p` in `s`, when `s` starts with `p`.
pub fn strip_prefix<'a>(s: &'a str, p: &str) -> (r: Option<&'a str>)
    ensures
        match r {
            Some(t) => after_prefix(s@, p@) == Some(t@),
            None => after_prefix(s@, p@) is None,
        },
{
    let cs = chars_of(s);
    let ps = chars_of(p);
    assert(s@.skip(0) =~= s@);
    if occurs_at(&cs, 0, &ps) {
        assert(s@.skip(p@.len() as int) =~= s@.subrange(p@.len() as int, s@.len() as int));
        Some(s.substring_char(ps.len(), cs.len()))
    } else {
        None
    }
}

/// What stands before and after the first `c` of `s`.
pub fn split_first<'a>(s: &'a str, c: char) -> (r: Option<(&'a str, &'a str)>)
    ensures
        match r {
            Some((a, b)) => split_once(s@, c) == Some((a@, b@)),
            None => split_once(s@, c) is None,
        },
{
    let cs = chars_of(s);
    let i = position_from(&cs, 0, c);
    proof {
        lemma_find_char(s@, c, i as int);
    }
    if i < cs.len() {
        assert(s@.subrange(0, i as int) =~= s@.take(i as int));
        assert(s@.subrange(i + 1, s@.len() as int) =~= s@.skip(i + 1));
        Some((s.substring_char(0, i), s.substring_char(i + 1, cs.len())))
    } else {
        None
    }
}

/// What stands before and after the last `c` of `s`.
pub fn split_last<'a>(s: &'a str, c: char) -> (r: Option<(&'a str, &'a str)>)
    ensures
        match r {
            Some((a, b)) => rsplit_once(s@, c) == Some((a@, b@)),
            None => rsplit_once(s@, c) is None,
        },
{
    let cs = chars_of(s);
    let mut i: usize = cs.len();
    while i > 0
        invariant
            i <= cs@.len(),
            cs@ == s@,
            forall|j: int| i <= j < cs@.len() ==> #[trigger] cs@[j] != c,
        decreases i,
    {
        if cs[i - 1] == c {
            proof {
                lemma_find_last_char(s@, c, i - 1);
            }
            assert(s@.subrange(0, i - 1) =~= s@.take(i - 1));
            assert(s@.subrange(i as int, s@.len() as int) =~= s@.skip(i as int));
            return Some((s.substring_char(0, i - 1), s.substring_char(i, cs.len())));
        }
        i -= 1;
    }
    proof {
        lemma_find_last_char(s@, c, -1);
    }
    None
}

/// Whether `p` occurs in `s`.
pub fn contains(s: &str, p: &str) -> (r: bool)
    ensures
        r == contains_text(s@, p@),
{
    let cs = chars_of(s);
    let ps = chars_of(p);
    let mut i: usize = 0;
    loop
        invariant
            i <= cs@.len(),
            cs@ == s@,
            ps@ == p@,
            forall|j: int|
                0 <= j < i && j <= s@.len() - p@.len() ==> #[trigger] s@.subrange(j, j + p@.len())
                    != p@,
        decreases cs@.len() - i,
    {
        let here = occurs_at(&cs, i, &ps);
        proof {
            if i + p@.len() <= s@.len() {
                assert(s@.skip(i as int).subrange(0, p@.len() as int) =~= s@.subrange(
                    i as int,
                    i + p@.len(),
                ));
            }
        }
        if here {
            return true;
        }
        if i == cs.len() {
            return false;
        }
        i += 1;
    }
}

/// The first position, in characters, at which `p` occurs in `s`.
pub fn position_of(s: &str, p: &str) -> (r: Option<usize>)
    ensures
        match r {
            Some(i) => find_text(s@, p@) == Some(i as nat) && i + p@.len() <= s@.len(),
            None => find_text(s@, p@) is None,
        },
{
    let cs = chars_of(s);
    let ps = chars_of(p);
    let mut i: usize = 0;
    assert(s@.skip(0) =~= s@);
    loop
        invariant
            i <= cs@.len(),
            cs@ == s@,
            ps@ == p@,
            find_text(s@, p@) is Some <==> find_text(s@.skip(i as int), p@) is Some,
            find_text(s@, p@) is Some ==> find_text(s@, p@)->0 == find_text(
                s@.skip(i as int),
                p@,
            )->0 + i,
        decreases cs@.len() - i,
    {
        if occurs_at(&cs, i, &ps) {
            return Some(i);
        }
        if i == cs.len() {
            return None;
        }
        assert(s@.skip(i as int).skip(1) =~= s@.skip(i + 1));
        i += 1;
    }
}

/// The pieces of `s` between its occurrences of `c`.
pub fn split_on(s: &str, c: char) -> (r: Vec<String>)
    ensures
        texts(r@) == pieces(s@, c),
{
    let cs = chars_of(s);
    let mut r: Vec<String> = Vec::new();
    let mut from: usize = 0;
    assert(s@.skip(0) =~= s@);
    assert(texts(r@) =~= Seq::empty());
    loop
        invariant
            from <= cs@.len(),
            cs@ == s@,
            texts(r@) + pieces(s@.skip(from as int), c) =~= pieces(s@, c),
        decreases cs@.len() - from,
    {
        let i = position_from(&cs, from, c);
        let ghost rest = s@.skip(from as int);
        let ghost before = r@;
        proof {
            assert forall|j: int| 0 <= j < i - from implies #[trigger] rest[j] != c by {
                assert(rest[j] == cs@[from + j]);
            }
            lemma_find_char(rest, c, i - from);
            assert(rest.take(i - from) =~= s@.subrange(from as int, i as int));
        }
        r.push(s.substring_char(from, i).to_owned());
        assert(texts(r@) =~= texts(before).push(rest.take(i - from)));
        if i == cs.len() {
            assert(rest.take(i - from) =~= rest);
            assert(texts(r@) =~= texts(before) + seq![rest]);
            return r;
        }
        assert(rest.skip(i - from + 1) =~= s@.skip(i + 1));
        assert(texts(r@) + pieces(s@.skip(i + 1), c) =~= texts(before) + (seq![
            rest.take(i - from),
        ] + pieces(s@.skip(i + 1), c)));
        from = i + 1;
    }
}

/// The maximal runs of characters of `s` that are not white space.
pub fn split_words(s: &str) -> (r: Vec<String>)
    ensures
        texts(r@) == words(s@),
{
    let cs = chars_of(s);
    let mut r: Vec<String> = Vec::new();
    let mut from: usize = 0;
    assert(s@.skip(0) =~= s@);
    assert(texts(r@) =~= Seq::empty());
    while from < cs.len()
        invariant
            from <= cs@.len(),
            cs@ == s@,
            texts(r@) + words(s@.skip(from as int)) =~= words(s@),
        decreases cs@.len() - from,
    {
        let ghost rest = s@.skip(from as int);
        let ghost before = r@;
        assert(rest[0] == cs@[from as int]);
        if is_whitespace(cs[from]) {
            assert(rest.skip(1) =~= s@.skip(from + 1));
            from += 1;
        } else {
            let mut i: usize = from + 1;
            while i < cs.len() && !is_whitespace(cs[i])
                invariant
                    from < i <= cs@.len(),
                    !is_space(cs@[from as int]),
                    forall|j: int| from <= j < i ==> !is_space(#[trigger] cs@[j]),
                decreases cs@.len() - i,
            {
                i += 1;
            }
            proof {
                assert forall|j: int| 0 <= j < i - from implies !space()(#[trigger] rest[j]) by {
                    assert(rest[j] == cs@[from + j]);
                }
                lemma_find_where(rest, space(), i - from);
                assert(rest.take(i - from) =~= s@.subrange(from as int, i as int));
                assert(rest.skip(i - from) =~= s@.skip(i as int));
            }
            r.push(s.substring_char(from, i).to_owned());
            assert(texts(r@) =~= texts(before).push(rest.take(i - from)));
            assert(texts(r@) + words(s@.skip(i as int)) =~= texts(before) + (seq![
                rest.take(i - from),
            ] + words(s@.skip(i as int))));
            from = i;
        }
    }
    r
}

/// The texts of `list`, with `sep` between each two.
pub fn join(list: &Vec<String>, sep: &str) -> (r: String)
    ensures
        r@ == joined(texts(list@), sep@),
{
    let mut r = String::new();
    let ghost all = texts(list@);
    let mut i: usize = 0;
    while i < list.len()
        invariant
            i <= list@.len(),
            all == texts(list@),
            r@ =~= joined(all.take(i as int), sep@),
        decreases list@.len() - i,
    {
        if i > 0 {
            r.append(sep);
        }
        assert(all.take(i + 1).drop_last() =~= all.take(i as int));
        assert(all.take(i + 1).last() == list@[i as int]@);
        r.append(list[i].as_str());
        i += 1;
    }
    assert(all.take(i as int) =~= all);
    r
}

/// `n` times the one character of `c`.
fn repeat(c: &str, n: usize) -> (r: String)
    requires
        c@.len() == 1,
    ensures
        r@ == fill(c@[0], n as int),
{
    let mut r = String::new();
    let mut i: usize = 0;
    while i < n
        invariant
            i <= n,
            c@.len() == 1,
            r@ =~= fill(c@[0], i as int),
        decreases n - i,
    {
        r.append(c);
        i += 1;
    }
    r
}

/// `s` after as many of the one character of `c` as bring it to `width` characters.
pub fn pad_left(s: &str, width: usize, c: &str) -> (r: String)
    requires
        c@.len() == 1,
    ensures
        r@ == padded_left(s@, width as int, c@[0]),
{
    let n = s.unicode_len();
    if n < width {
        let mut r = repeat(c, width - n);
        r.append(s);
        r
    } else {
        s.to_owned()
    }
}

/// `s` between as many of the one character of `c` as bring it to `width` characters.
pub fn center(s: &str, width: usize, c: &str) -> (r: String)
    requires
        c@.len() == 1,
    ensures
        r@ == centered(s@, width as int, c@[0]),
{
    let n = s.unicode_len();
    if n < width {
        let room: usize = width - n;
        let mut r = repeat(c, room / 2);
        r.append(s);
        let right = repeat(c, room - room / 2);
        r.append(right.as_str());
        r
    } else {
        s.to_owned()
    }
}

/// A text that is one word: not empty and without white space.
pub open spec fn is_word(w: Seq<char>) -> bool {
    w.len() > 0 && forall|i: int| 0 <= i < w.len() ==> !is_space(#[trigger] w[i])
}

proof fn lemma_joined_first(list: Seq<Seq<char>>, sep: Seq<char>)
    requires
        list.len() > 1,
    ensures
        joined(list, sep) == list[0] + (sep + joined(list.skip(1), sep)),
    decreases list.len(),
{
    let front = list.drop_last();
    let tail = list.skip(1);
    assert(tail.last() == list.last());
    if list.len() == 2 {
        assert(joined(front, sep) == list[0]);
        assert(joined(tail, sep) == list[1]);
        assert(joined(list, sep) =~= list[0] + (sep + joined(tail, sep)));
    } else {
        lemma_joined_first(front, sep);
        assert(front.skip(1) =~= tail.drop_last());
        assert(joined(tail, sep) == joined(tail.drop_last(), sep) + sep + list.last());
        assert(joined(list, sep) =~= list[0] + (sep + joined(tail, sep)));
    }
}

/// Words joined by blanks are the words of what they make.
pub proof fn joined_words_come_apart(list: Seq<Seq<char>>)
    requires
        forall|i: int| 0 <= i < list.len() ==> is_word(#[trigger] list[i]),
    ensures
        words(joined(list, " "@)) == list,
    decreases list.len(),
{
    let s = joined(list, " "@);
    reveal_strlit(" ");
    if list.len() == 0 {
        assert(words(s) =~= list);
    } else {
        let w = list[0];
        let n = w.len() as int;
        let tail = list.skip(1);
        assert(is_word(w));
        assert forall|i: int| 0 <= i < tail.len() implies is_word(#[trigger] tail[i]) by {
            assert(tail[i] == list[i + 1]);
        }
        joined_words_come_apart(tail);
        if list.len() > 1 {
            lemma_joined_first(list, " "@);
            assert(s[n] == ' ');
        }
        assert(s.take(n) =~= w);
        assert forall|j: int| 0 <= j < n implies !space()(#[trigger] s[j]) by {
            assert(s[j] == w[j]);
        }
        lemma_find_where(s, space(), n);
        assert(!is_space(w[0]) && s[0] == w[0]);
        let rest = s.skip(n);
        if list.len() > 1 {
            assert(rest.skip(1) =~= joined(tail, " "@));
            assert(words(rest) == words(rest.skip(1)));
        } else {
            assert(rest =~= Seq::empty());
            assert(tail =~= Seq::empty());
            assert(words(rest) =~= tail);
        }
        assert(seq![w] + tail =~= list);
    }
}

/// A text of white space alone, perhaps empty.
pub open spec fn is_blank(s: Seq<char>) -> bool {
    forall|i: int| 0 <= i < s.len() ==> is_space(#[trigger] s[i])
}

/// A text that neither starts nor ends with white space, and is not empty.
pub open spec fn is_tight(s: Seq<char>) -> bool {
    s.len() > 0 && !is_space(s[0]) && !is_space(s.last())
}

/// Trimming takes away the white space around a text, and nothing of the text itself.
pub proof fn trimming_keeps_the_text(a: Seq<char>, s: Seq<char>, b: Seq<char>)
    requires
        is_blank(a),
        is_blank(b),
        is_tight(s),
    ensures
        trimmed(a + s + b) == s,
        trimmed_start(a + s + b) == s + b,
        trimmed(s) == s,
        trimmed_start(s) == s,
{
    let all = a + s + b;
    let n = a.len() as int;
    assert forall|j: int| 0 <= j < n implies is_space(#[trigger] all[j]) by {
        assert(all[j] == a[j]);
    }
    assert(all[n] == s[0]);
    lemma_trimmed_start(all, n);
    let t = s + b;
    assert(all.skip(n) =~= t);
    let m = s.len() as int;
    assert forall|j: int| m <= j < t.len() implies is_space(#[trigger] t[j]) by {
        assert(t[j] == b[j - m]);
    }
    assert(t[m - 1] == s.last());
    lemma_trimmed_end(t, m);
    assert(t.take(m) =~= s);
    lemma_trimmed_start(s, 0);
    assert(s.skip(0) =~= s);
    lemma_trimmed_end(s, m);
    assert(s.take(m) =~= s);
}

/// Of white space alone nothing is left, and of a text with something else in it something is.
pub proof fn only_white_space_is_trimmed_away(s: Seq<char>)
    ensures
        trimmed(s).len() == 0 <==> is_blank(s),
        is_blank(s) ==> trimmed_start(s).len() == 0,
        trimmed(s).len() > 0 ==> is_tight(trimmed(s)),
    decreases s.len(),
{
    if s.len() > 0 {
        if is_space(s[0]) {
            let t = s.skip(1);
            only_white_space_is_trimmed_away(t);
            assert(is_blank(s) <==> is_blank(t)) by {
                if is_blank(t) {
                    assert forall|i: int| 0 <= i < s.len() implies is_space(#[trigger] s[i]) by {
                        if i > 0 {
                            assert(t[i - 1] == s[i]);
                        }
                    }
                }
                if is_blank(s) {
                    assert forall|i: int| 0 <= i < t.len() implies is_space(#[trigger] t[i]) by {
                        assert(t[i] == s[i + 1]);
                    }
                }
            }
        } else {
            lemma_trimmed_end_keeps_first(s);
            assert(!is_blank(s));
        }
    }
}

proof fn lemma_trimmed_end_keeps_first(s: Seq<char>)
    requires
        s.len() > 0,
        !is_space(s[0]),
    ensures
        is_tight(trimmed_end(s)),
    decreases s.len(),
{
    if is_space(s.last()) {
        assert(s.len() > 1);
        assert(s.drop_last()[0] == s[0]);
        lemma_trimmed_end_keeps_first(s.drop_last());
    }
}

/// A text is cut at the first mark: what stands before and behind it comes out as it is.
pub proof fn texts_are_cut_at_the_first_mark(a: Seq<char>, c: char, b: Seq<char>)
    requires
        !a.contains(c),
    ensures
        split_once(a.push(c) + b, c) == Some((a, b)),
        split_once(a, c) is None,
{
    let s = a.push(c) + b;
    let n = a.len() as int;
    assert forall|j: int| 0 <= j < n implies #[trigger] s[j] != c by {
        assert(s[j] == a[j]);
        assert(a.contains(a[j]));
    }
    assert(s[n] == c);
    lemma_find_char(s, c, n);
    assert(s.take(n) =~= a);
    assert(s.skip(n + 1) =~= b);
    assert forall|j: int| 0 <= j < n implies #[trigger] a[j] != c by {
        assert(a.contains(a[j]));
    }
    lemma_find_char(a, c, n);
}

/// A text is cut at the last mark: what stands before and behind it comes out as it is.
pub proof fn texts_are_cut_at_the_last_mark(a: Seq<char>, c: char, b: Seq<char>)
    requires
        !b.contains(c),
    ensures
        rsplit_once(a.push(c) + b, c) == Some((a, b)),
        rsplit_once(b, c) is None,
{
    let s = a.push(c) + b;
    let n = a.len() as int;
    assert forall|j: int| n < j < s.len() implies #[trigger] s[j] != c by {
        assert(s[j] == b[j - n - 1]);
        assert(b.contains(b[j - n - 1]));
    }
    assert(s[n] == c);
    lemma_find_last_char(s, c, n);
    assert(s.take(n) =~= a);
    assert(s.skip(n + 1) =~= b);
    assert forall|j: int| -1 < j < b.len() implies #[trigger] b[j] != c by {
        assert(b.contains(b[j]));
    }
    lemma_find_last_char(b, c, -1);
}

/// What a text starts with can be taken off, and what is left is the rest.
pub proof fn prefixes_come_off(p: Seq<char>, rest: Seq<char>)
    ensures
        after_prefix(p + rest, p) == Some(rest),
        p.is_prefix_of(p + rest),
{
    let s = p + rest;
    assert(s.subrange(0, p.len() as int) =~= p);
    assert(s.skip(p.len() as int) =~= rest);
}

/// A text holds another wherever that stands in it, and only if it stands somewhere.
pub proof fn texts_are_found_anywhere(s: Seq<char>, a: Seq<char>, p: Seq<char>, b: Seq<char>)
    ensures
        contains_text(a + p + b, p),
        contains_text(s, p) <==> exists|x: Seq<char>, y: Seq<char>| s == #[trigger] (x + p + y),
{
    let all = a + p + b;
    let n = a.len() as int;
    assert(all.subrange(n, n + p.len()) =~= p);
    if contains_text(s, p) {
        let i = choose|i: int|
            0 <= i <= s.len() - p.len() && #[trigger] s.subrange(i, i + p.len()) == p;
        let x = s.take(i);
        let y = s.skip(i + p.len());
        assert(s =~= x + s.subrange(i, i + p.len()) + y);
        assert(s == x + p + y);
    }
    if exists|x: Seq<char>, y: Seq<char>| s == #[trigger] (x + p + y) {
        let (x, y) = choose|x: Seq<char>, y: Seq<char>| s == #[trigger] (x + p + y);
        let i = x.len() as int;
        assert(s.subrange(i, i + p.len()) =~= p);
    }
}

/// A text is cut at every mark: the piece before the first, then the pieces of what follows.
pub proof fn texts_are_cut_at_every_mark(a: Seq<char>, c: char, rest: Seq<char>)
    requires
        !a.contains(c),
    ensures
        pieces(a.push(c) + rest, c) == seq![a] + pieces(rest, c),
        pieces(a, c) == seq![a],
{
    let s = a.push(c) + rest;
    texts_are_cut_at_the_first_mark(a, c, rest);
    lemma_find_char_is(s, c);
    lemma_find_char_is(a, c);
}

/// Padding on the left keeps the text at the right margin, and a long text as it is.
pub proof fn padded_texts_end_at_the_margin(s: Seq<char>, width: int, c: char)
    ensures
        s.len() <= width ==> padded_left(s, width, c).len() == width,
        s.is_suffix_of(padded_left(s, width, c)),
        forall|i: int|
            0 <= i < padded_left(s, width, c).len() - s.len() ==> #[trigger] padded_left(
                s,
                width,
                c,
            )[i] == c,
        s.len() >= width ==> padded_left(s, width, c) == s,
{
    let t = padded_left(s, width, c);
    assert(t.subrange(t.len() - s.len(), t.len() as int) =~= s);
}

/// Centring keeps the text in the middle, one character further left where the room is odd.
pub proof fn centered_texts_stand_in_the_middle(s: Seq<char>, width: int, c: char)
    ensures
        s.len() >= width ==> centered(s, width, c) == s,
        s.len() < width ==> exists|a: Seq<char>, b: Seq<char>|
            {
                &&& centered(s, width, c) == #[trigger] (a + s + b)
                &&& a.len() + s.len() + b.len() == width
                &&& a.len() <= b.len() <= a.len() + 1
                &&& forall|i: int| 0 <= i < a.len() ==> a[i] == c
                &&& forall|i: int| 0 <= i < b.len() ==> b[i] == c
            },
{
    if s.len() < width {
        let room = width - s.len();
        let a = fill(c, room / 2);
        let b = fill(c, room - room / 2);
        assert(centered(s, width, c) == a + s + b);
    }
}

/// Words are what stands between white space, whatever that is and however much.
pub proof fn words_stand_between_white_space(
    gap: Seq<char>,
    w: Seq<char>,
    sep: char,
    rest: Seq<char>,
)
    requires
        is_blank(gap),
        is_word(w),
        is_space(sep),
    ensures
        words(gap + w.push(sep) + rest) == seq![w] + words(rest),
        words(gap + w) == seq![w],
        words(gap).len() == 0,
    decreases gap.len(),
{
    let all = gap + w.push(sep) + rest;
    if gap.len() == 0 {
        let n = w.len() as int;
        assert(!is_space(w[0]));
        assert(all =~= w.push(sep) + rest);
        assert forall|j: int| 0 <= j < n implies !space()(#[trigger] all[j]) by {
            assert(all[j] == w[j]);
        }
        assert(all[n] == sep);
        lemma_find_where(all, space(), n);
        assert(all.take(n) =~= w);
        let tail = all.skip(n);
        assert(tail[0] == sep && tail.skip(1) =~= rest);
        assert(words(tail) == words(rest));
        assert(all[0] == w[0]);
        assert(words(all) == seq![w] + words(tail));
        assert(gap + w =~= w);
        assert forall|j: int| 0 <= j < n implies !space()(#[trigger] w[j]) by {}
        lemma_find_where(w, space(), n);
        assert(w.take(n) =~= w);
        assert(w.skip(n) =~= Seq::empty());
        assert(words(w.skip(n)) =~= Seq::empty());
        assert(seq![w] + words(w.skip(n)) =~= seq![w]);
        assert(words(gap) =~= Seq::empty());
    } else {
        let tail = gap.skip(1);
        assert forall|i: int| 0 <= i < tail.len() implies is_space(#[trigger] tail[i]) by {
            assert(tail[i] == gap[i + 1]);
        }
        words_stand_between_white_space(tail, w, sep, rest);
        assert(is_space(gap[0]));
        assert(all[0] == gap[0] && all.skip(1) =~= tail + w.push(sep) + rest);
        assert((gap + w)[0] == gap[0] && (gap + w).skip(1) =~= tail + w);
    }
}

} // verus!
