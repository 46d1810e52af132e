use tesseras_repl::content::{
    join_chunks, key_of, keys_of_chunks, parse_token, split_data, token_text, CHUNK_SIZE,
};
use tesseras_repl::identity::{key_text, public_key_hex};

#[test]
fn keys_are_digests_of_the_content() {
    assert_eq!(
        token_text(&vec![key_of(b"abc")]),
        "ba7816bf8f01cfea414140de5dae2223b00361a396177a9cb410ff61f20015ad"
    );
    assert_eq!(
        token_text(&vec![key_of(b"")]),
        "e3b0c44298fc1c149afbf4c8996fb92427ae41e4649b934ca495991b7852b855"
    );
}

#[test]
fn tokens_lead_back_to_keys() {
    for data in [&b""[..], b"abc", b"\x00\xff"] {
        let keys = vec![key_of(data)];
        assert_eq!(parse_token(&token_text(&keys)), Ok(keys));
    }
    assert_eq!(parse_token(&"AF".repeat(32)), Ok(vec![[0xaf; 32]]));
    assert_eq!(parse_token(&"AF".repeat(64)), Ok(vec![[0xaf; 32]; 2]));
    assert_eq!(parse_token(&"+f".repeat(32)), Ok(vec![[0x0f; 32]]));
}

#[test]
fn data_goes_in_chunks_and_comes_back() {
    for (len, sizes) in [
        (0, vec![0]),
        (1, vec![1]),
        (CHUNK_SIZE, vec![CHUNK_SIZE]),
        (CHUNK_SIZE + 1, vec![CHUNK_SIZE, 1]),
        (3 * CHUNK_SIZE, vec![CHUNK_SIZE; 3]),
    ] {
        let data: Vec<u8> = (0..len).map(|i| (i % 251) as u8).collect();
        let chunks = split_data(&data);
        assert_eq!(chunks.iter().map(Vec::len).collect::<Vec<_>>(), sizes);
        assert_eq!(join_chunks(&chunks), data);
        let keys = keys_of_chunks(&chunks);
        assert_eq!(keys, chunks.iter().map(|c| key_of(c)).collect::<Vec<_>>());
        let token = token_text(&keys);
        assert_eq!(token.len(), 64 * chunks.len());
        assert_eq!(parse_token(&token), Ok(keys));
    }
    assert!(join_chunks(&vec![]).is_empty());
}

#[test]
fn other_texts_are_no_tokens() {
    let no = Err("expected 64 hexadecimal digits per chunk".to_string());
    assert_eq!(parse_token(""), no);
    assert_eq!(parse_token(&"a".repeat(63)), no);
    assert_eq!(parse_token(&"a".repeat(65)), no);
    assert_eq!(parse_token(&"-1".repeat(32)), no);
    assert_eq!(parse_token(&"g0".repeat(32)), no);
    assert_eq!(parse_token(&format!("{}{}", "a".repeat(64), "g".repeat(64))), no);
    assert_eq!(parse_token(&"a\u{e9}a".repeat(16)), no);
    assert_eq!(parse_token(&"\u{e9}".repeat(32)), no);
}

#[test]
fn public_keys_in_hex() {
    // RFC 8032, section 7.1, test 1
    let secret = parse_token("9d61b19deffd5a60ba844af492ec2cc44449c5697b326919703bac031cae7f60")
        .unwrap()[0];
    assert_eq!(
        public_key_hex(Some(secret)),
        "d75a980182b10ab7d54bfed3c964073a0ee172f3daa62325af021a68f707511a"
    );
    assert_eq!(public_key_hex(None), "(unknown)");
    assert_eq!(key_text(None), "(unknown)");
    assert_eq!(key_text(Some([0x0a; 32])), "0a".repeat(32));
}
