//! What the terminal says of its background.

use crate::number::{
    decimal, is_digit, lemma_decimal, number_up_to, parse_number, written_numbers_read_back,
};
use crate::text::{
    chars_of, contains_text, find_text, find_where, lemma_find_char, lemma_find_where,
    lemma_find_where_is, pieces, position_of, split_first, split_on, split_once, texts,
    texts_are_cut_at_every_mark,
};
use crate::unicode::utf8_text;
use vstd::prelude::*;
use vstd::string::*;
use vstd::utf8::*;

verus! {

/// Bytes of a terminal's reply that are read at most.
pub const REPLY_CAPACITY: usize = 64;

/// The hexadecimal digits.
pub open spec fn is_hex(c: char) -> bool {
    ||| '0' as int <= c as int <= '9' as int
    ||| 'a' as int <= c as int <= 'f' as int
    ||| 'A' as int <= c as int <= 'F' as int
}

/// The predicate that holds of everything but the hexadecimal digits.
pub open spec fn not_hex() -> spec_fn(char) -> bool {
    |c: char| !is_hex(c)
}

/// The number that a hexadecimal digit stands for.
pub open spec fn nibble(c: char) -> nat {
    (if c as int <= '9' as int {
        c as int - '0' as int
    } else if c as int <= 'F' as int {
        c as int - 'A' as int + 10
    } else {
        c as int - 'a' as int + 10
    }) as nat
}

/// The number that the hexadecimal digits of `s` stand for.
pub open spec fn hex_value(s: Seq<char>) -> nat
    decreases s.len(),
{
    if s.len() == 0 {
        0
    } else {
        16 * hex_value(s.drop_last()) + nibble(s.last())
    }
}

/// The 16-bit number that `s` starts with, in hexadecimal, and the number of its digits.
pub open spec fn channel(s: Seq<char>) -> Option<(nat, nat)> {
    let n = find_where(s, not_hex());
    let v = hex_value(s.take(n));
    if n == 0 || v > 65535 {
        None
    } else {
        Some((v, n as nat))
    }
}

/// The three colour channels after `rgb:` in a reply, separated by `/`.
pub open spec fn reply_channels(reply: Seq<char>) -> Option<((nat, nat), (nat, nat), (nat, nat))> {
    match find_text(reply, "rgb:"@) {
        None => None,
        Some(i) => match split_once(reply.skip(i as int + 4), '/') {
            None => None,
            Some((r, rest)) => match split_once(rest, '/') {
                None => None,
                Some((g, b)) => match (channel(r), channel(g), channel(b)) {
                    (Some(r), Some(g), Some(b)) => Some((r, g, b)),
                    _ => None,
                },
            },
        },
    }
}

/// A channel of two or four digits.
pub open spec fn has_width(c: (nat, nat)) -> bool {
    c.1 == 2 || c.1 == 4
}

/// A channel of two or four digits in 8 bits: as it stands, or its high byte.
pub open spec fn narrowed(c: (nat, nat)) -> nat {
    if c.1 == 4 {
        c.0 / 256
    } else {
        c.0
    }
}

/// The channels in 8 bits. With two or four digits each goes by its own width. Where another
/// number of digits occurs, they go by their values: as they stand when all fit, else their high
/// bytes.
pub open spec fn to_bytes(r: (nat, nat), g: (nat, nat), b: (nat, nat)) -> (nat, nat, nat) {
    if has_width(r) && has_width(g) && has_width(b) {
        (narrowed(r), narrowed(g), narrowed(b))
    } else if r.0 > 255 || g.0 > 255 || b.0 > 255 {
        (r.0 / 256, g.0 / 256, b.0 / 256)
    } else {
        (r.0, g.0, b.0)
    }
}

/// The perceived luminance 0.299 r + 0.587 g + 0.114 b is above 128.
pub open spec fn is_bright(rgb: (nat, nat, nat)) -> bool {
    299 * rgb.0 + 587 * rgb.1 + 114 * rgb.2 > 128000
}

/// What a reply says of the background: light, dark, or nothing.
pub open spec fn reply_is_light(reply: Seq<char>) -> Option<bool> {
    match reply_channels(reply) {
        Some((r, g, b)) => Some(is_bright(to_bytes(r, g, b))),
        None => None,
    }
}

/// A reply is complete once it holds BEL, or ESC and a backslash.
pub open spec fn is_terminated(bytes: Seq<u8>) -> bool {
    ||| bytes.contains(0x07)
    ||| exists|i: int|
        0 <= i < bytes.len() - 1 && #[trigger] bytes[i] == 0x1b && bytes[i + 1] == 0x5c
}

/// The numbers up to 255 among the texts of `list`.
pub open spec fn byte_values(list: Seq<Seq<char>>) -> Seq<nat>
    decreases list.len(),
{
    if list.len() == 0 {
        Seq::empty()
    } else {
        match number_up_to(list.last(), 255) {
            Ok(v) => byte_values(list.drop_last()).push(v),
            Err(_) => byte_values(list.drop_last()),
        }
    }
}

/// What the foreground colour says of the background: it is light when the first three numbers
/// of the foreground add up to less than 384, and dark when there are no three.
pub open spec fn foreground_is_dark(fg: Seq<char>) -> bool {
    let v = byte_values(pieces(fg, ';'));
    v.len() >= 3 && v[0] + v[1] + v[2] < 384
}

/// The background is light, going by the terminal's reply, else by the foreground colour.
pub open spec fn background_is_light(reply: Option<bool>, fg: Option<Seq<char>>) -> bool {
    match reply {
        Some(light) => light,
        None => match fg {
            Some(fg) => foreground_is_dark(fg),
            None => false,
        },
    }
}

fn hex_digit_value(c: char) -> (r: Option<u32>)
    ensures
        match r {
            Some(v) => is_hex(c) && v == nibble(c) && v < 16,
            None => !is_hex(c),
        },
{
    if '0' <= c && c <= '9' {
        Some(c as u32 - '0' as u32)
    } else if 'a' <= c && c <= 'f' {
        Some(c as u32 - 'a' as u32 + 10)
    } else if 'A' <= c && c <= 'F' {
        Some(c as u32 - 'A' as u32 + 10)
    } else {
        None
    }
}

proof fn lemma_hex_value_grows(s: Seq<char>, i: int, j: int)
    requires
        0 <= i <= j <= s.len(),
    ensures
        hex_value(s.take(i)) <= hex_value(s.take(j)),
    decreases j - i,
{
    if i < j {
        lemma_hex_value_grows(s, i, j - 1);
        assert(s.take(j).drop_last() =~= s.take(j - 1));
    }
}

proof fn lemma_two_digits(s: Seq<char>)
    requires
        s.len() <= 2,
        forall|i: int| 0 <= i < s.len() ==> is_hex(#[trigger] s[i]),
    ensures
        hex_value(s) <= 255,
{
    reveal_with_fuel(hex_value, 3);
    if s.len() == 2 {
        assert(is_hex(s[0]) && is_hex(s[1]));
        assert(s.drop_last().last() == s[0]);
    } else if s.len() == 1 {
        assert(is_hex(s[0]));
    }
}

/// The 16-bit number that `s` starts with, in hexadecimal, and the number of its digits.
pub fn parse_channel(s: &str) -> (r: Option<(u32, usize)>)
    ensures
        match r {
            Some((v, n)) => channel(s@) == Some((v as nat, n as nat)) && v <= 65535,
            None => channel(s@) is None,
        },
{
    let cs = chars_of(s);
    let mut v: u32 = 0;
    let mut i: usize = 0;
    proof {
        if s@.len() == 0 {
            lemma_find_where(s@, not_hex(), 0);
        }
    }
    while i < cs.len()
        invariant_except_break
            i <= cs@.len(),
            cs@ == s@,
            v <= 65535,
            v == hex_value(s@.take(i as int)),
            forall|j: int| 0 <= j < i ==> is_hex(#[trigger] s@[j]),
            i == cs@.len() ==> i == find_where(s@, not_hex()),
        ensures
            i == find_where(s@, not_hex()),
            i <= s@.len(),
            v <= 65535,
            v == hex_value(s@.take(i as int)),
            forall|j: int| 0 <= j < i ==> is_hex(#[trigger] s@[j]),
        decreases cs@.len() - i,
    {
        match hex_digit_value(cs[i]) {
            None => {
                proof {
                    lemma_find_where(s@, not_hex(), i as int);
                }
                break;
            },
            Some(d) => {
                let w: u32 = v * 16 + d;
                assert(s@.take(i + 1).drop_last() =~= s@.take(i as int));
                assert(w == hex_value(s@.take(i + 1)));
                if w > 65535 {
                    proof {
                        lemma_find_where_is(s@, not_hex());
                        let n = find_where(s@, not_hex());
                        if n <= i {
                            assert(is_hex(s@[n]));
                        }
                        lemma_hex_value_grows(s@, i + 1, n);
                    }
                    return None;
                }
                v = w;
            },
        }
        i += 1;
        proof {
            if i == cs@.len() {
                lemma_find_where(s@, not_hex(), i as int);
            }
        }
    }
    if i == 0 {
        None
    } else {
        Some((v, i))
    }
}

/// The channels in 8 bits.
fn channels_in_bytes(r: (u32, usize), g: (u32, usize), b: (u32, usize)) -> (rgb: (u32, u32, u32))
    requires
        r.0 <= 65535,
        g.0 <= 65535,
        b.0 <= 65535,
    ensures
        (rgb.0 as nat, rgb.1 as nat, rgb.2 as nat) == to_bytes(
            (r.0 as nat, r.1 as nat),
            (g.0 as nat, g.1 as nat),
            (b.0 as nat, b.1 as nat),
        ),
        rgb.0 <= 65535,
        rgb.1 <= 65535,
        rgb.2 <= 65535,
{
    if (r.1 == 2 || r.1 == 4) && (g.1 == 2 || g.1 == 4) && (b.1 == 2 || b.1 == 4) {
        (
            if r.1 == 4 {
                r.0 / 256
            } else {
                r.0
            },
            if g.1 == 4 {
                g.0 / 256
            } else {
                g.0
            },
            if b.1 == 4 {
                b.0 / 256
            } else {
                b.0
            },
        )
    } else if r.0 > 255 || g.0 > 255 || b.0 > 255 {
        (r.0 / 256, g.0 / 256, b.0 / 256)
    } else {
        (r.0, g.0, b.0)
    }
}

/// What a terminal's reply to the background query says: `Some(true)` for a light background,
/// `Some(false)` for a dark one, `None` when the reply holds no colour.
pub fn parse_osc11_response(response: &str) -> (r: Option<bool>)
    ensures
        r == reply_is_light(response@),
{
    let start = match position_of(response, "rgb:") {
        Some(i) => i,
        None => {
            return None;
        },
    };
    proof {
        reveal_strlit("rgb:");
    }
    let end = response.unicode_len();
    let rgb = response.substring_char(start + 4, end);
    assert(rgb@ =~= response@.skip(start + 4));
    let (r_text, rest) = match split_first(rgb, '/') {
        Some(p) => p,
        None => {
            return None;
        },
    };
    let (g_text, b_text) = match split_first(rest, '/') {
        Some(p) => p,
        None => {
            return None;
        },
    };
    match (parse_channel(r_text), parse_channel(g_text), parse_channel(b_text)) {
        (Some(r), Some(g), Some(b)) => {
            let (r8, g8, b8) = channels_in_bytes(r, g, b);
            Some(299 * r8 + 587 * g8 + 114 * b8 > 128000)
        },
        _ => None,
    }
}

/// What the bytes of a terminal's reply say of its background; bytes that are not UTF-8 say
/// nothing.
pub fn parse_osc11_reply(bytes: &[u8]) -> (r: Option<bool>)
    ensures
        r == (if valid_utf8(bytes@) {
            reply_is_light(decode_utf8(bytes@))
        } else {
            None
        }),
{
    match utf8_text(bytes) {
        Some(s) => parse_osc11_response(s.as_str()),
        None => None,
    }
}

/// Whether reading a terminal's reply ends with the bytes read so far.
pub fn reply_is_read(bytes: &[u8]) -> (r: bool)
    ensures
        r == (is_terminated(bytes@) || bytes@.len() >= REPLY_CAPACITY),
{
    let mut i: usize = 0;
    while i < bytes.len()
        invariant
            i <= bytes@.len(),
            forall|j: int| 0 <= j < i ==> #[trigger] bytes@[j] != 0x07,
            forall|j: int|
                0 <= j < i && j < bytes@.len() - 1 ==> !(#[trigger] bytes@[j] == 0x1b && bytes@[j
                    + 1] == 0x5c),
        decreases bytes@.len() - i,
    {
        if bytes[i] == 0x07 {
            assert(bytes@.contains(0x07));
            return true;
        }
        if bytes[i] == 0x1b && i < bytes.len() - 1 && bytes[i + 1] == 0x5c {
            return true;
        }
        i += 1;
    }
    assert(!is_terminated(bytes@));
    bytes.len() >= REPLY_CAPACITY
}

/// Whether the terminal has a light background, going by its reply to the background query, else
/// by its foreground colour, and dark when neither is known.
pub fn is_light_terminal(reply: Option<bool>, foreground: Option<&str>) -> (r: bool)
    ensures
        r == background_is_light(
            reply,
            match foreground {
                Some(fg) => Some(fg@),
                None => None,
            },
        ),
{
    if let Some(light) = reply {
        return light;
    }
    let fg = match foreground {
        Some(fg) => fg,
        None => {
            return false;
        },
    };
    let parts = split_on(fg, ';');
    let mut values: Vec<u64> = Vec::new();
    let ghost all = pieces(fg@, ';');
    let mut i: usize = 0;
    while i < parts.len()
        invariant
            i <= parts@.len(),
            texts(parts@) == all,
            values@.len() == byte_values(all.take(i as int)).len(),
            forall|j: int|
                0 <= j < values@.len() ==> #[trigger] values@[j] == byte_values(
                    all.take(i as int),
                )[j] && values@[j] <= 255,
        decreases parts@.len() - i,
    {
        assert(all.take(i + 1).drop_last() =~= all.take(i as int));
        assert(all.take(i + 1).last() == parts@[i as int]@);
        if let Ok(v) = parse_number(parts[i].as_str(), 255) {
            values.push(v);
        }
        i += 1;
    }
    assert(all.take(i as int) =~= all);
    values.len() >= 3 && values[0] + values[1] + values[2] < 384
}

/// A gray background is light just above the middle.
pub proof fn grays_are_light_above_the_middle(v: nat)
    ensures
        is_bright((v, v, v)) <==> v > 128,
{
}

proof fn lemma_find_text(s: Seq<char>, p: Seq<char>, i: int)
    requires
        0 <= i <= s.len(),
        p.is_prefix_of(s.skip(i)),
        forall|j: int| 0 <= j < i ==> !p.is_prefix_of(#[trigger] s.skip(j)),
    ensures
        find_text(s, p) == Some(i as nat),
    decreases i,
{
    assert(s.skip(0) =~= s);
    if i > 0 {
        assert(!p.is_prefix_of(s.skip(0)));
        let t = s.skip(1);
        assert(t.skip(i - 1) =~= s.skip(i));
        assert forall|j: int| 0 <= j < i - 1 implies !p.is_prefix_of(#[trigger] t.skip(j)) by {
            assert(t.skip(j) =~= s.skip(j + 1));
        }
        lemma_find_text(t, p, i - 1);
    }
}

proof fn lemma_channel(digits: Seq<char>, end: Seq<char>)
    requires
        0 < digits.len() <= 4,
        forall|i: int| 0 <= i < digits.len() ==> is_hex(#[trigger] digits[i]),
        end.len() == 0 || !is_hex(end[0]),
    ensures
        channel(digits + end) == Some((hex_value(digits), digits.len())),
{
    let s = digits + end;
    let n = digits.len() as int;
    assert forall|j: int| 0 <= j < n implies !not_hex()(#[trigger] s[j]) by {
        assert(s[j] == digits[j]);
    }
    lemma_find_where(s, not_hex(), n);
    assert(s.take(n) =~= digits);
    reveal_with_fuel(hex_value, 5);
    assert(hex_value(digits) <= 65535) by {
        assert(is_hex(digits[n - 1]));
        if n > 1 {
            assert(digits.drop_last().last() == digits[n - 2]);
            assert(is_hex(digits[n - 2]));
        }
        if n > 2 {
            assert(digits.drop_last().drop_last().last() == digits[n - 3]);
            assert(is_hex(digits[n - 3]));
        }
        if n > 3 {
            assert(digits.drop_last().drop_last().drop_last().last() == digits[n - 4]);
            assert(is_hex(digits[n - 4]));
        }
    }
}

/// A reply that names a colour: `before`, then `rgb:` and the channels, then `end`.
pub open spec fn colour_reply(
    before: Seq<char>,
    r: Seq<char>,
    g: Seq<char>,
    b: Seq<char>,
    end: Seq<char>,
) -> Seq<char> {
    before + ("rgb:"@ + (r + ("/"@ + (g + ("/"@ + (b + end))))))
}

/// `s` is made of `n` hexadecimal digits.
pub open spec fn hex_digits(s: Seq<char>, n: nat) -> bool {
    s.len() == n && forall|i: int| 0 <= i < s.len() ==> is_hex(#[trigger] s[i])
}

proof fn lemma_colour_start(before: Seq<char>, tail: Seq<char>)
    requires
        !contains_text(before, "rgb:"@),
    ensures
        find_text(before + ("rgb:"@ + tail), "rgb:"@) == Some(before.len()),
        (before + ("rgb:"@ + tail)).skip(before.len() as int + 4) == tail,
{
    let reply = before + ("rgb:"@ + tail);
    let at = before.len() as int;
    reveal_strlit("rgb:");
    assert("rgb:"@.is_prefix_of(reply.skip(at))) by {
        assert(reply.skip(at).subrange(0, 4) =~= "rgb:"@);
    }
    assert forall|j: int| 0 <= j < at implies !"rgb:"@.is_prefix_of(#[trigger] reply.skip(j)) by {
        if "rgb:"@.is_prefix_of(reply.skip(j)) {
            let here = reply.skip(j).subrange(0, 4);
            assert(here =~= "rgb:"@);
            if at - j >= 4 {
                assert(before.subrange(j, j + 4) =~= here);
            } else {
                assert(here[at - j] == reply[at]);
                assert(reply[at] == "rgb:"@[0]);
            }
        }
    }
    lemma_find_text(reply, "rgb:"@, at);
    assert(reply.skip(at + 4) =~= tail);
}

proof fn lemma_channel_end(digits: Seq<char>, n: nat, tail: Seq<char>)
    requires
        hex_digits(digits, n),
    ensures
        split_once(digits + ("/"@ + tail), '/') == Some((digits, tail)),
{
    let s = digits + ("/"@ + tail);
    reveal_strlit("/");
    assert forall|j: int| 0 <= j < n implies #[trigger] s[j] != '/' by {
        assert(s[j] == digits[j]);
        assert(is_hex(digits[j]));
    }
    assert(s[n as int] == '/');
    lemma_find_char(s, '/', n as int);
    assert(s.take(n as int) =~= digits);
    assert(s.skip(n as int + 1) =~= tail);
}

proof fn lemma_reply_channels(
    before: Seq<char>,
    r: Seq<char>,
    g: Seq<char>,
    b: Seq<char>,
    end: Seq<char>,
    n: nat,
)
    requires
        !contains_text(before, "rgb:"@),
        end.len() == 0 || !is_hex(end[0]),
        0 < n <= 4,
        hex_digits(r, n),
        hex_digits(g, n),
        hex_digits(b, n),
    ensures
        reply_channels(colour_reply(before, r, g, b, end)) == Some(
            ((hex_value(r), n), (hex_value(g), n), (hex_value(b), n)),
        ),
{
    let none = Seq::<char>::empty();
    let blue = b + end;
    let green = g + ("/"@ + blue);
    lemma_colour_start(before, r + ("/"@ + green));
    lemma_channel_end(r, n, green);
    lemma_channel_end(g, n, blue);
    assert(r + none =~= r);
    assert(g + none =~= g);
    lemma_channel(r, none);
    lemma_channel(g, none);
    lemma_channel(b, end);
}

proof fn lemma_doubled(s: Seq<char>)
    requires
        hex_digits(s, 2),
    ensures
        hex_digits(s + s, 4),
        hex_value(s + s) / 256 == hex_value(s),
{
    let t = s + s;
    assert forall|i: int| 0 <= i < t.len() implies is_hex(#[trigger] t[i]) by {
        assert(t[i] == s[i % 2]);
    }
    lemma_two_digits(s);
    assert(t.drop_last().drop_last() =~= s);
    assert(t.last() == s[1] && t.drop_last().last() == s[0]);
    assert(s.last() == s[1] && s.drop_last().last() == s[0]);
    assert(hex_value(s) == 16 * nibble(s[0]) + nibble(s[1])) by {
        reveal_with_fuel(hex_value, 3);
    }
    assert(hex_value(t) == 256 * hex_value(s) + 16 * nibble(s[0]) + nibble(s[1])) by {
        reveal_with_fuel(hex_value, 3);
    }
}

/// A colour says the same with two digits per channel and, each pair doubled, with four.
pub proof fn wide_channels_say_the_same(
    before: Seq<char>,
    r: Seq<char>,
    g: Seq<char>,
    b: Seq<char>,
    end: Seq<char>,
)
    requires
        !contains_text(before, "rgb:"@),
        end.len() == 0 || !is_hex(end[0]),
        hex_digits(r, 2),
        hex_digits(g, 2),
        hex_digits(b, 2),
    ensures
        reply_is_light(colour_reply(before, r, g, b, end)) == reply_is_light(
            colour_reply(before, r + r, g + g, b + b, end),
        ),
        reply_is_light(colour_reply(before, r, g, b, end)) == Some(
            is_bright((hex_value(r), hex_value(g), hex_value(b))),
        ),
{
    lemma_reply_channels(before, r, g, b, end, 2);
    lemma_doubled(r);
    lemma_doubled(g);
    lemma_doubled(b);
    lemma_reply_channels(before, r + r, g + g, b + b, end, 4);
}

/// With four digits per channel the last two do not count.
pub proof fn high_bytes_decide(
    before: Seq<char>,
    r: Seq<char>,
    g: Seq<char>,
    b: Seq<char>,
    end: Seq<char>,
)
    requires
        !contains_text(before, "rgb:"@),
        end.len() == 0 || !is_hex(end[0]),
        hex_digits(r, 4),
        hex_digits(g, 4),
        hex_digits(b, 4),
    ensures
        reply_is_light(colour_reply(before, r, g, b, end)) == Some(
            is_bright((hex_value(r) / 256, hex_value(g) / 256, hex_value(b) / 256)),
        ),
{
    lemma_reply_channels(before, r, g, b, end, 4);
}

/// A brighter colour is not taken for a darker one.
pub proof fn brighter_colours_stay_light(a: (nat, nat, nat), b: (nat, nat, nat))
    requires
        a.0 <= b.0,
        a.1 <= b.1,
        a.2 <= b.2,
        is_bright(a),
    ensures
        is_bright(b),
{
}

/// Digits count in powers of sixteen, and stand for their values in either case.
pub proof fn digits_count_by_sixteen(s: Seq<char>, n: int)
    requires
        0 <= n < 16,
    ensures
        hex_value(Seq::empty()) == 0,
        s.len() > 0 ==> hex_value(s) == 16 * hex_value(s.drop_last()) + nibble(s.last()),
        n < 10 ==> nibble(('0' as int + n) as char) == n && is_hex(('0' as int + n) as char),
        n >= 10 ==> nibble(('a' as int + n - 10) as char) == n && is_hex(
            ('a' as int + n - 10) as char,
        ),
        n >= 10 ==> nibble(('A' as int + n - 10) as char) == n && is_hex(
            ('A' as int + n - 10) as char,
        ),
{
}

proof fn lemma_mixed_channels(
    before: Seq<char>,
    r: Seq<char>,
    g: Seq<char>,
    b: Seq<char>,
    end: Seq<char>,
)
    requires
        !contains_text(before, "rgb:"@),
        end.len() == 0 || !is_hex(end[0]),
        0 < r.len() <= 4 && hex_digits(r, r.len()),
        0 < g.len() <= 4 && hex_digits(g, g.len()),
        0 < b.len() <= 4 && hex_digits(b, b.len()),
    ensures
        reply_channels(colour_reply(before, r, g, b, end)) == Some(
            ((hex_value(r), r.len()), (hex_value(g), g.len()), (hex_value(b), b.len())),
        ),
{
    let none = Seq::<char>::empty();
    let blue = b + end;
    let green = g + ("/"@ + blue);
    lemma_colour_start(before, r + ("/"@ + green));
    lemma_channel_end(r, r.len(), green);
    lemma_channel_end(g, g.len(), blue);
    assert(r + none =~= r);
    assert(g + none =~= g);
    lemma_channel(r, none);
    lemma_channel(g, none);
    lemma_channel(b, end);
}

/// The background is light just when the luminance of its colour is above the middle: with two or
/// four digits per channel each channel goes by its high byte, with other numbers of digits all go
/// by their values, or by their high bytes when one is beyond a byte.
pub proof fn luminance_decides(
    before: Seq<char>,
    r: Seq<char>,
    g: Seq<char>,
    b: Seq<char>,
    end: Seq<char>,
)
    requires
        !contains_text(before, "rgb:"@),
        end.len() == 0 || !is_hex(end[0]),
        0 < r.len() <= 4 && hex_digits(r, r.len()),
        0 < g.len() <= 4 && hex_digits(g, g.len()),
        0 < b.len() <= 4 && hex_digits(b, b.len()),
    ensures
        ({
            let (x, y, z) = (hex_value(r), hex_value(g), hex_value(b));
            let light = reply_is_light(colour_reply(before, r, g, b, end));
            let even = r.len() % 2 == 0 && g.len() % 2 == 0 && b.len() % 2 == 0;
            &&& r.len() == 2 && g.len() == 2 && b.len() == 2 ==> light == Some(
                299 * x + 587 * y + 114 * z > 128000,
            )
            &&& r.len() == 4 && g.len() == 4 && b.len() == 4 ==> light == Some(
                299 * (x / 256) + 587 * (y / 256) + 114 * (z / 256) > 128000,
            )
            &&& !even && x <= 255 && y <= 255 && z <= 255 ==> light == Some(
                299 * x + 587 * y + 114 * z > 128000,
            )
            &&& !even && (x > 255 || y > 255 || z > 255) ==> light == Some(
                299 * (x / 256) + 587 * (y / 256) + 114 * (z / 256) > 128000,
            )
        }),
{
    lemma_mixed_channels(before, r, g, b, end);
}

/// A text without `rgb:` says nothing of the background.
pub proof fn replies_without_a_colour_say_nothing(reply: Seq<char>)
    requires
        !contains_text(reply, "rgb:"@),
    ensures
        reply_is_light(reply) is None,
{
    lemma_not_found(reply, "rgb:"@);
}

proof fn lemma_not_found(s: Seq<char>, p: Seq<char>)
    requires
        !contains_text(s, p),
    ensures
        find_text(s, p) is None,
    decreases s.len(),
{
    if p.is_prefix_of(s) {
        assert(s.subrange(0, 0int + p.len()) =~= p);
    } else if s.len() > 0 {
        let t = s.skip(1);
        if contains_text(t, p) {
            let i = choose|i: int|
                0 <= i <= t.len() - p.len() && #[trigger] t.subrange(i, i + p.len()) == p;
            let j = i + 1;
            assert(s.subrange(j, j + p.len()) =~= t.subrange(i, i + p.len()));
        }
        lemma_not_found(t, p);
    }
}

/// Without a reply the foreground decides: the background is light when the first three numbers of
/// the foreground add up to less than 384. Without a foreground, and with fewer numbers, it is dark.
pub proof fn foregrounds_decide_without_a_reply(r: u8, g: u8, b: u8, light: bool, fg: Seq<char>)
    ensures
        ({
            let two = decimal(r as nat).push(';') + decimal(g as nat);
            let three = two.push(';') + decimal(b as nat);
            &&& background_is_light(None, Some(three)) <==> r + g + b < 384
            &&& !background_is_light(None, Some(two))
        }),
        !background_is_light(None, None),
        background_is_light(Some(light), Some(fg)) == light,
        background_is_light(Some(light), None) == light,
{
    let (x, y, z) = (decimal(r as nat), decimal(g as nat), decimal(b as nat));
    lemma_no_mark(r as nat);
    lemma_no_mark(g as nat);
    lemma_no_mark(b as nat);
    written_numbers_read_back(r as nat, 255);
    written_numbers_read_back(g as nat, 255);
    written_numbers_read_back(b as nat, 255);
    let two = x.push(';') + y;
    let three = two.push(';') + z;
    texts_are_cut_at_every_mark(x, ';', y);
    texts_are_cut_at_every_mark(x, ';', y.push(';') + z);
    texts_are_cut_at_every_mark(y, ';', z);
    texts_are_cut_at_every_mark(z, ';', z);
    assert(three =~= x.push(';') + (y.push(';') + z));
    assert(pieces(two, ';') =~= seq![x, y]);
    assert(pieces(three, ';') =~= seq![x, y, z]);
    assert(seq![x, y, z].drop_last() =~= seq![x, y]);
    assert(seq![x, y].drop_last() =~= seq![x]);
    assert(seq![x].drop_last() =~= Seq::<Seq<char>>::empty());
    assert(byte_values(Seq::<Seq<char>>::empty()) =~= Seq::<nat>::empty());
    assert(byte_values(seq![x]) =~= seq![r as nat]);
    assert(byte_values(seq![x, y]) =~= seq![r as nat, g as nat]);
    assert(byte_values(seq![x, y, z]) =~= seq![r as nat, g as nat, b as nat]);
}

proof fn lemma_no_mark(n: nat)
    ensures
        !decimal(n).contains(';'),
{
    lemma_decimal(n);
    if decimal(n).contains(';') {
        let i = choose|i: int| 0 <= i < decimal(n).len() && decimal(n)[i] == ';';
        assert(is_digit(decimal(n)[i]));
    }
}

} // verus!
