//! Keys and tokens: what content is stored under, and what it is asked for by.

use crate::identity::{encode_hex, hex_digit, hex_text};
use crate::terminal::{is_hex, nibble};
use vstd::prelude::*;
use vstd::string::*;
use vstd::utf8::*;

verus! {

/// Bytes in a chunk (32 KiB): what the network takes as one value.
pub const CHUNK_SIZE: usize = 32768;

/// The key of content: its SHA-256 digest, as `tesseras_dht` computes it.
pub uninterp spec fn content_key(data: Seq<u8>) -> Seq<u8>;

/// The byte that two characters stand for: two hexadecimal digits, or a plus sign and one digit.
pub open spec fn byte_of(a: char, b: char) -> Option<nat> {
    if is_hex(a) && is_hex(b) {
        Some(16 * nibble(a) + nibble(b))
    } else if a == '+' && is_hex(b) {
        Some(nibble(b))
    } else {
        None
    }
}

/// The `i`-th pair of characters of a text, as a byte.
pub open spec fn pair(t: Seq<char>, i: int) -> Option<nat> {
    byte_of(t[2 * i], t[2 * i + 1])
}

/// The key that a text holds: 32 bytes, two characters each.
pub open spec fn key_in(t: Seq<char>) -> Option<Seq<u8>> {
    if t.len() == 64 && forall|i: int| 0 <= i < 32 ==> #[trigger] pair(t, i) is Some {
        Some(Seq::new(32, |i: int| pair(t, i)->0 as u8))
    } else {
        None
    }
}

/// Data in chunks of `CHUNK_SIZE` bytes, the last one perhaps shorter; there is always one.
pub open spec fn chunks(data: Seq<u8>) -> Seq<Seq<u8>>
    decreases data.len(),
{
    if data.len() <= CHUNK_SIZE {
        seq![data]
    } else {
        seq![data.take(CHUNK_SIZE as int)] + chunks(data.skip(CHUNK_SIZE as int))
    }
}

/// The token of a list of keys: their hexadecimal digits, one key after the other.
pub open spec fn token_of(keys: Seq<Seq<u8>>) -> Seq<char>
    decreases keys.len(),
{
    if keys.len() == 0 {
        Seq::empty()
    } else {
        token_of(keys.drop_last()) + hex_text(keys.last())
    }
}

/// Part `i` of a token.
pub open spec fn part(token: Seq<char>, i: int) -> Seq<char> {
    token.subrange(64 * i, 64 * i + 64)
}

/// The keys that a token holds, one or more, 64 characters each.
pub open spec fn keys_in(token: Seq<char>) -> Option<Seq<Seq<u8>>> {
    let n = token.len() / 64;
    if n > 0 && token.len() % 64 == 0 && forall|i: int|
        0 <= i < n ==> key_in(#[trigger] part(token, i)) is Some {
        Some(Seq::new(n, |i: int| key_in(part(token, i))->0))
    } else {
        None
    }
}

/// Why a text is no token.
pub open spec fn not_a_token() -> Seq<char> {
    "expected 64 hexadecimal digits per chunk"@
}

/// Calls `tesseras_dht::NodeId::from_key`: the key is `content_key` of the data.
#[verifier::external_body]
fn digest(data: &[u8]) -> (r: [u8; 32])
    ensures
        r@ == content_key(data@),
{
    *tesseras_dht::NodeId::from_key(data).as_bytes()
}

/// Calls `tesseras_dht::NodeId::from_hex`: 64 characters in pairs, each of them a byte as
/// `u8::from_str_radix` reads it. It cuts the text every two bytes, so that a text with wider
/// characters is left out.
#[verifier::external_body]
fn decode_key(token: &str) -> (r: Option<[u8; 32]>)
    requires
        token.is_ascii(),
    ensures
        match r {
            Some(k) => key_in(token@) == Some(k@),
            None => key_in(token@) is None,
        },
{
    match tesseras_dht::NodeId::from_hex(token) {
        Some(id) => Some(*id.as_bytes()),
        None => None,
    }
}

/// The key that a chunk is stored under.
pub fn key_of(data: &[u8]) -> (r: [u8; 32])
    ensures
        r@ == content_key(data@),
{
    digest(data)
}

/// The views of a list of byte strings.
pub open spec fn bytes_of(list: Seq<Vec<u8>>) -> Seq<Seq<u8>> {
    list.map_values(|c: Vec<u8>| c@)
}

/// The views of a list of keys.
pub open spec fn keys_of(list: Seq<[u8; 32]>) -> Seq<Seq<u8>> {
    list.map_values(|k: [u8; 32]| k@)
}

fn copy_bytes(data: &[u8], from: usize, to: usize) -> (r: Vec<u8>)
    requires
        from <= to <= data@.len(),
    ensures
        r@ == data@.subrange(from as int, to as int),
{
    let mut r: Vec<u8> = Vec::new();
    r.extend_from_slice(vstd::slice::slice_subrange(data, from, to));
    assert(r@ =~= data@.subrange(from as int, to as int));
    r
}

/// Splits data into chunks.
pub fn split_data(data: &[u8]) -> (r: Vec<Vec<u8>>)
    ensures
        bytes_of(r@) == chunks(data@),
{
    let mut r: Vec<Vec<u8>> = Vec::new();
    let mut from: usize = 0;
    assert(data@.skip(0) =~= data@);
    assert(bytes_of(r@) + chunks(data@) =~= chunks(data@));
    while data.len() - from > CHUNK_SIZE
        invariant
            from <= data@.len(),
            chunks(data@) == bytes_of(r@) + chunks(data@.skip(from as int)),
        decreases data@.len() - from,
    {
        let ghost rest = data@.skip(from as int);
        let ghost before = r@;
        let chunk = copy_bytes(data, from, from + CHUNK_SIZE);
        proof {
            assert(chunk@ =~= rest.take(CHUNK_SIZE as int));
            assert(rest.skip(CHUNK_SIZE as int) =~= data@.skip(from + CHUNK_SIZE));
        }
        r.push(chunk);
        from += CHUNK_SIZE;
        proof {
            let after = chunks(data@.skip(from as int));
            assert(bytes_of(r@) =~= bytes_of(before).push(rest.take(CHUNK_SIZE as int)));
            assert(bytes_of(before) + (seq![rest.take(CHUNK_SIZE as int)] + after) =~= bytes_of(r@)
                + after);
        }
    }
    let ghost before = r@;
    let last = copy_bytes(data, from, data.len());
    assert(last@ =~= data@.skip(from as int));
    r.push(last);
    assert(bytes_of(r@) =~= bytes_of(before) + seq![data@.skip(from as int)]);
    r
}

/// Puts chunks together again.
pub fn join_chunks(list: &Vec<Vec<u8>>) -> (r: Vec<u8>)
    ensures
        r@ == bytes_of(list@).flatten(),
{
    let ghost all = bytes_of(list@);
    let mut r: Vec<u8> = Vec::new();
    let mut i: usize = 0;
    proof {
        assert(all.skip(0) =~= all);
        assert(r@ + all.flatten() =~= all.flatten());
    }
    while i < list.len()
        invariant
            i <= list@.len(),
            all == bytes_of(list@),
            r@ + all.skip(i as int).flatten() == all.flatten(),
        decreases list@.len() - i,
    {
        let ghost before = r@;
        let ghost rest = all.skip(i as int);
        r.extend_from_slice(list[i].as_slice());
        proof {
            assert(rest.first() == list@[i as int]@);
            assert(rest.drop_first() =~= all.skip(i + 1));
            assert(r@ =~= before + rest.first());
            assert(r@ + rest.drop_first().flatten() =~= before + (rest.first()
                + rest.drop_first().flatten()));
        }
        i += 1;
    }
    assert(all.skip(i as int) =~= Seq::empty());
    assert(r@ =~= all.flatten());
    r
}

/// The token of a list of keys: their hexadecimal digits, one key after the other.
pub fn token_text(keys: &Vec<[u8; 32]>) -> (r: String)
    ensures
        r@ == token_of(keys_of(keys@)),
{
    let ghost all = keys_of(keys@);
    let mut r = String::new();
    let mut i: usize = 0;
    while i < keys.len()
        invariant
            i <= keys@.len(),
            all == keys_of(keys@),
            r@ =~= token_of(all.take(i as int)),
        decreases keys@.len() - i,
    {
        assert(all.take(i + 1).drop_last() =~= all.take(i as int));
        assert(all.take(i + 1).last() == keys@[i as int]@);
        r.append(encode_hex(&keys[i]).as_str());
        i += 1;
    }
    assert(all.take(i as int) =~= all);
    r
}

/// The keys of a list of chunks.
pub fn keys_of_chunks(list: &Vec<Vec<u8>>) -> (r: Vec<[u8; 32]>)
    ensures
        keys_of(r@) == bytes_of(list@).map_values(|c: Seq<u8>| content_key(c)),
{
    let mut r: Vec<[u8; 32]> = Vec::new();
    let mut i: usize = 0;
    while i < list.len()
        invariant
            i <= list@.len(),
            r@.len() == i,
            forall|j: int| 0 <= j < i ==> (#[trigger] r@[j])@ == content_key(list@[j]@),
        decreases list@.len() - i,
    {
        r.push(key_of(list[i].as_slice()));
        i += 1;
    }
    assert(keys_of(r@) =~= bytes_of(list@).map_values(|c: Seq<u8>| content_key(c)));
    r
}

/// The keys that a token holds, or why there are none.
pub fn parse_token(token: &str) -> (r: Result<Vec<[u8; 32]>, String>)
    ensures
        match r {
            Ok(keys) => keys_in(token@) == Some(keys_of(keys@)),
            Err(e) => keys_in(token@) is None && e@ == not_a_token(),
        },
{
    let ghost t = token@;
    if !token.is_ascii() {
        proof {
            if keys_in(t) is Some {
                assert forall|j: int| 0 <= j < t.len() implies '\0' <= #[trigger] t[j]
                    <= '\u{7f}' by {
                    let p = part(t, j / 64);
                    assert(key_in(p) is Some);
                    assert(pair(p, (j % 64) / 2) is Some);
                    assert(p[j % 64] == t[j]);
                }
                assert(is_ascii_chars(t));
            }
        }
        return Err("expected 64 hexadecimal digits per chunk".to_owned());
    }
    let len: usize = token.unicode_len();
    let n: usize = len / 64;
    if n == 0 || len % 64 != 0 {
        return Err("expected 64 hexadecimal digits per chunk".to_owned());
    }
    let mut r: Vec<[u8; 32]> = Vec::new();
    let mut i: usize = 0;
    while i < n
        invariant
            i <= n,
            t == token@,
            t.len() == len,
            len == 64 * n,
            token.is_ascii(),
            r@.len() == i,
            forall|j: int| 0 <= j < i ==> key_in(#[trigger] part(t, j)) == Some(r@[j]@),
        decreases n - i,
    {
        let piece = token.substring_ascii(64 * i, 64 * i + 64);
        assert(piece@ =~= part(t, i as int));
        match decode_key(piece) {
            Some(k) => r.push(k),
            None => {
                assert(key_in(part(t, i as int)) is None);
                return Err("expected 64 hexadecimal digits per chunk".to_owned());
            },
        }
        i += 1;
    }
    assert(keys_of(r@) =~= Seq::new(n as nat, |i: int| key_in(part(t, i))->0));
    Ok(r)
}

/// The digits of a key lead back to it.
pub proof fn digits_hold_their_key(key: Seq<u8>)
    requires
        key.len() == 32,
    ensures
        key_in(hex_text(key)) == Some(key),
{
    let t = hex_text(key);
    assert forall|i: int| 0 <= i < 32 implies #[trigger] pair(t, i) == Some(key[i] as nat) by {
        let b = key[i] as int;
        assert(0 <= b / 16 < 16 && 0 <= b % 16 < 16);
        assert((2 * i) / 2 == i && (2 * i) % 2 == 0);
        assert((2 * i + 1) / 2 == i && (2 * i + 1) % 2 == 1);
        assert(t[2 * i] == hex_digit(b / 16));
        assert(t[2 * i + 1] == hex_digit(b % 16));
        assert(nibble(hex_digit(b / 16)) == b / 16 && nibble(hex_digit(b % 16)) == b % 16);
    }
    assert(key_in(t)->0 =~= key);
}

proof fn lemma_token_parts(keys: Seq<Seq<u8>>)
    requires
        forall|i: int| 0 <= i < keys.len() ==> (#[trigger] keys[i]).len() == 32,
    ensures
        token_of(keys).len() == 64 * keys.len(),
        forall|i: int| 0 <= i < keys.len() ==> #[trigger] part(token_of(keys), i) == hex_text(keys[i]),
    decreases keys.len(),
{
    let all = token_of(keys);
    if keys.len() > 0 {
        let front = keys.drop_last();
        assert forall|i: int| 0 <= i < front.len() implies (#[trigger] front[i]).len() == 32 by {
            assert(front[i] == keys[i]);
        }
        lemma_token_parts(front);
        assert(keys[keys.len() - 1].len() == 32);
        assert forall|i: int| 0 <= i < keys.len() implies #[trigger] part(all, i) == hex_text(
            keys[i],
        ) by {
            if i < front.len() {
                assert(part(all, i) =~= part(token_of(front), i));
                assert(front[i] == keys[i]);
            } else {
                assert(part(all, i) =~= hex_text(keys.last()));
            }
        }
    }
}

/// A token of one or more keys is made of hexadecimal digits, 64 per key.
pub proof fn tokens_are_made_of_digits(keys: Seq<Seq<u8>>)
    requires
        forall|i: int| 0 <= i < keys.len() ==> (#[trigger] keys[i]).len() == 32,
    ensures
        token_of(keys).len() == 64 * keys.len(),
        forall|j: int| 0 <= j < token_of(keys).len() ==> is_hex(#[trigger] token_of(keys)[j]),
{
    let t = token_of(keys);
    lemma_token_parts(keys);
    assert forall|j: int| 0 <= j < t.len() implies is_hex(#[trigger] t[j]) by {
        let p = part(t, j / 64);
        let k = j % 64;
        assert(p == hex_text(keys[j / 64]));
        assert(p[k] == t[j]);
        let b = keys[j / 64][k / 2] as int;
        assert(0 <= b / 16 < 16 && 0 <= b % 16 < 16);
    }
}

/// The token of one or more keys leads back to them.
pub proof fn tokens_hold_their_keys(keys: Seq<Seq<u8>>)
    requires
        keys.len() > 0,
        forall|i: int| 0 <= i < keys.len() ==> (#[trigger] keys[i]).len() == 32,
    ensures
        keys_in(token_of(keys)) == Some(keys),
{
    let t = token_of(keys);
    lemma_token_parts(keys);
    assert forall|i: int| 0 <= i < keys.len() implies key_in(#[trigger] part(t, i)) == Some(
        keys[i],
    ) by {
        digits_hold_their_key(keys[i]);
    }
    assert(keys_in(t)->0 =~= keys);
}

/// The chunks of data make up the data, none is longer than a chunk may be, all but the last are
/// that long, and their number is that of the chunks begun.
pub proof fn chunks_make_up_the_data(data: Seq<u8>)
    ensures
        chunks(data).flatten() == data,
        chunks(data).len() > 0,
        chunks(data).len() == (if data.len() == 0 {
            1
        } else {
            (data.len() + CHUNK_SIZE - 1) / CHUNK_SIZE as int
        }),
        forall|i: int|
            0 <= i < chunks(data).len() ==> (#[trigger] chunks(data)[i]).len() <= CHUNK_SIZE && (i
                < chunks(data).len() - 1 ==> chunks(data)[i].len() == CHUNK_SIZE),
    decreases data.len(),
{
    let all = chunks(data);
    if data.len() <= CHUNK_SIZE {
        let none = all.drop_first();
        assert(none =~= Seq::empty());
        assert(all.first() == data);
        assert(all.flatten() =~= data + none.flatten());
        assert(all.flatten() =~= data);
    } else {
        let head = data.take(CHUNK_SIZE as int);
        let tail = data.skip(CHUNK_SIZE as int);
        chunks_make_up_the_data(tail);
        assert(all.drop_first() =~= chunks(tail));
        assert(all.first() == head);
        assert(head + tail =~= data);
        assert forall|i: int| 0 <= i < all.len() implies (#[trigger] all[i]).len() <= CHUNK_SIZE
            && (i < all.len() - 1 ==> all[i].len() == CHUNK_SIZE) by {
            if i > 0 {
                assert(all[i] == chunks(tail)[i - 1]);
            }
        }
    }
}

/// Two tokens in a row are a token of the keys of both, in their order.
pub proof fn tokens_in_a_row_hold_both_keys(a: Seq<char>, b: Seq<char>)
    requires
        keys_in(a) is Some,
        keys_in(b) is Some,
    ensures
        keys_in(a + b) == Some(keys_in(a)->0 + keys_in(b)->0),
{
    let t = a + b;
    let m = (a.len() / 64) as int;
    let n = (b.len() / 64) as int;
    assert(a.len() == 64 * m && b.len() == 64 * n);
    assert(t.len() / 64 == m + n && t.len() % 64 == 0);
    assert forall|i: int| 0 <= i < m + n implies #[trigger] part(t, i) == (if i < m {
        part(a, i)
    } else {
        part(b, i - m)
    }) by {
        if i < m {
            assert(part(t, i) =~= part(a, i));
        } else {
            assert(part(t, i) =~= part(b, i - m));
        }
    }
    assert forall|i: int| 0 <= i < m + n implies key_in(#[trigger] part(t, i)) is Some by {
        if i < m {
            assert(key_in(part(a, i)) is Some);
        } else {
            assert(key_in(part(b, i - m)) is Some);
        }
    }
    assert(keys_in(t)->0 =~= keys_in(a)->0 + keys_in(b)->0);
}

/// A token holds a key in every 64 characters and nothing else: what is left when a key is cut off
/// in front is a token again, or nothing.
pub proof fn tokens_are_keys_and_nothing_else(t: Seq<char>)
    ensures
        keys_in(t) is Some ==> t.len() == 64 * keys_in(t)->0.len() && t.len() >= 64,
        t.len() == 64 ==> keys_in(t) == (match key_in(t) {
            Some(k) => Some(seq![k]),
            None => None,
        }),
        t.len() > 64 ==> (keys_in(t) is Some <==> key_in(t.take(64)) is Some && keys_in(
            t.skip(64),
        ) is Some),
        t.len() < 64 ==> keys_in(t) is None,
{
    if t.len() == 64 {
        assert(part(t, 0) =~= t);
        if key_in(t) is Some {
            assert(keys_in(t)->0 =~= seq![key_in(t)->0]);
        }
    }
    if t.len() > 64 {
        let n = (t.len() / 64) as int;
        let rest = t.skip(64);
        assert(part(t, 0) =~= t.take(64));
        assert forall|i: int| 0 <= i < n - 1 && t.len() == 64 * n implies #[trigger] part(rest, i)
            == part(t, i + 1) by {
            assert(part(rest, i) =~= part(t, i + 1));
        }
        if key_in(t.take(64)) is Some && keys_in(rest) is Some {
            assert(t.len() == 64 * n);
            assert forall|i: int| 0 <= i < n implies key_in(#[trigger] part(t, i)) is Some by {
                if i > 0 {
                    assert(part(rest, i - 1) == part(t, i));
                }
            }
        }
        if keys_in(t) is Some {
            assert(t.len() == 64 * n);
            assert(key_in(part(t, 0)) is Some);
            assert(rest.len() == 64 * (n - 1));
            assert forall|i: int| 0 <= i < n - 1 implies key_in(
                #[trigger] part(rest, i),
            ) is Some by {
                assert(key_in(part(t, i + 1)) is Some);
            }
        }
    }
}

} // verus!
