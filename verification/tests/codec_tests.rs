use token_stash::codec::{decode_hits, encode_hits, encode_tokens, DecodeError};
use token_stash::token::{Token, TokenEntry, TokenHits};

fn table(entries: Vec<(Token, u64)>) -> TokenHits {
    TokenHits {
        entries: entries
            .into_iter()
            .map(|(value, count)| TokenEntry { value, count })
            .collect(),
    }
}

fn entries_of(hits: &TokenHits) -> Vec<(Token, u64)> {
    let mut v: Vec<(Token, u64)> = Vec::new();
    let mut i: usize = 0;
    while i < hits.len() {
        let e = hits.get(i);
        v.push((e.value, e.count));
        i += 1;
    }
    v
}

#[test]
fn encode_decode_round_trip() {
    let hits = table(vec![
        (Token::C('a'), 1),
        (Token::C('é'), 17),
        (Token::Num(12345678901234567890), u64::MAX),
        (Token::C('\u{10FFFF}'), 42),
    ]);
    let bytes = encode_hits(&hits);
    let back = decode_hits(&bytes).unwrap();
    assert_eq!(entries_of(&back), entries_of(&hits));
}

#[test]
fn empty_table_round_trip() {
    let hits = table(vec![]);
    let bytes = encode_hits(&hits);
    assert_eq!(bytes.len(), 0);
    let back = decode_hits(&bytes).unwrap();
    assert_eq!(back.len(), 0);
}

#[test]
fn entry_is_seventeen_bytes() {
    let hits = table(vec![(Token::C('a'), 3)]);
    let bytes = encode_hits(&hits);
    assert_eq!(bytes.len(), 17);
    assert_eq!(bytes[0], 0);
    assert_eq!(bytes[1], 97);
    assert_eq!(bytes[9], 3);
}

#[test]
fn truncated_bytes_are_rejected() {
    let hits = table(vec![(Token::C('a'), 3)]);
    let mut bytes = encode_hits(&hits);
    bytes.pop();
    assert_eq!(decode_hits(&bytes).unwrap_err(), DecodeError::BadLength);
}

#[test]
fn unknown_tag_is_rejected() {
    let hits = table(vec![(Token::C('a'), 3)]);
    let mut bytes = encode_hits(&hits);
    bytes[0] = 9;
    assert_eq!(decode_hits(&bytes).unwrap_err(), DecodeError::BadTag);
}

#[test]
fn surrogate_value_is_rejected() {
    let hits = table(vec![(Token::C('a'), 3)]);
    let mut bytes = encode_hits(&hits);
    // overwrite the symbol value with 0xD800, a surrogate code point
    bytes[1] = 0x00;
    bytes[2] = 0xD8;
    assert_eq!(decode_hits(&bytes).unwrap_err(), DecodeError::BadSymbol);
}

#[test]
fn out_of_range_value_is_rejected() {
    let hits = table(vec![(Token::C('a'), 3)]);
    let mut bytes = encode_hits(&hits);
    // overwrite the symbol value with 0x110000, one past the last code point
    bytes[1] = 0x00;
    bytes[2] = 0x00;
    bytes[3] = 0x11;
    assert_eq!(decode_hits(&bytes).unwrap_err(), DecodeError::BadSymbol);
}

#[test]
fn context_encodings_do_not_collide() {
    // distinct splits of the same characters encode differently
    let ab_c = encode_tokens(&vec![Token::C('a'), Token::C('b')]);
    let a_bc = encode_tokens(&vec![Token::C('ば')]);
    assert_ne!(ab_c, a_bc);
    let num = encode_tokens(&vec![Token::Num(97)]);
    let chr = encode_tokens(&vec![Token::C('a')]);
    assert_ne!(num, chr);
    assert_eq!(chr.len(), 9);
}
