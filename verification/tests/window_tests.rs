use token_stash::codec::{encode_hits, DecodeError};
use token_stash::digest::hash_tokens;
use token_stash::store::ContextStore;
use token_stash::token::{Token, TokenEntry, TokenHits};
use token_stash::window::tokenize;

#[test]
fn tokenize_one_symbol_per_character() {
    let toks = tokenize("abc");
    assert_eq!(toks, vec![Token::C('a'), Token::C('b'), Token::C('c')]);
    let empty = tokenize("");
    assert_eq!(empty.len(), 0);
    let uni = tokenize("aé\u{10FFFF}");
    assert_eq!(uni, vec![Token::C('a'), Token::C('é'), Token::C('\u{10FFFF}')]);
}

#[test]
fn hash_is_the_hex_digest_of_the_encoding() {
    // sha256 of the 9-byte record of 'a' (tag 0, value 97 little-endian)
    let key = hash_tokens(&tokenize("a"));
    assert_eq!(
        key,
        b"ffe958d45e3417df4086bd4725f63a98d975a2cfb0627f8fde03ee0eb54f68c3".to_vec()
    );
    // sha256 of the empty encoding: the empty context is a valid context
    let empty_key = hash_tokens(&Vec::new());
    assert_eq!(
        empty_key,
        b"e3b0c44298fc1c149afbf4c8996fb92427ae41e4649b934ca495991b7852b855".to_vec()
    );
}

#[test]
fn noting_two_strings_accumulates_two_successors() {
    // note "ab" then "ac": the context ['a'] must hold {b: 1, c: 1}
    let mut store = ContextStore::new();
    store.note_all_string(&tokenize("ab"), 1);
    store.note_all_string(&tokenize("ac"), 1);
    let hits = store.successors_of(&tokenize("a"));
    assert_eq!(hits.len(), 2);
    assert_eq!(hits.count_of(Token::C('b')), 1);
    assert_eq!(hits.count_of(Token::C('c')), 1);
}

#[test]
fn noting_a_run_accumulates_counts() {
    // note "aaaa": three a-follows-a transitions are observed
    let mut store = ContextStore::new();
    store.note_text("aaaa", 1);
    let hits = store.successors_of(&tokenize("a"));
    assert_eq!(hits.count_of(Token::C('a')), 3);
}

#[test]
fn note_text_covers_longer_contexts() {
    let mut store = ContextStore::new();
    store.note_text("aaaa", 2);
    assert_eq!(store.successors_of(&tokenize("a")).count_of(Token::C('a')), 3);
    assert_eq!(store.successors_of(&tokenize("aa")).count_of(Token::C('a')), 2);
}

#[test]
fn note_string_notes_only_the_last_transition() {
    let mut store = ContextStore::new();
    store.note_string(&tokenize("xyz"));
    let hits = store.successors_of(&tokenize("xy"));
    assert_eq!(hits.count_of(Token::C('z')), 1);
    assert_eq!(store.successors_of(&tokenize("x")).len(), 0);
}

#[test]
fn predict_on_empty_store_is_empty() {
    let store = ContextStore::new();
    assert_eq!(store.predict(&tokenize("anything"), 32).len(), 0);
    assert_eq!(store.predict(&tokenize(""), 32).len(), 0);
    assert_eq!(store.predict(&tokenize("a"), 0).len(), 0);
}

#[test]
fn predict_backs_off_to_the_longest_match() {
    // successors recorded for the length-3 and length-1 suffix contexts of
    // "xabc", but not for the length-2 one: predict with max length 3 must
    // take the length-3 table, not the length-1 one
    let mut store = ContextStore::new();
    store.record_transition(&tokenize("abc"), Token::C('L'));
    store.record_transition(&tokenize("c"), Token::C('S'));
    let hits = store.predict(&tokenize("xabc"), 3);
    assert_eq!(hits.len(), 1);
    assert_eq!(hits.count_of(Token::C('L')), 1);
    assert_eq!(hits.count_of(Token::C('S')), 0);
}

#[test]
fn predict_scans_the_full_context_length() {
    // with max length 1 the single-symbol suffix itself is examined
    let mut store = ContextStore::new();
    store.record_transition(&tokenize("a"), Token::C('b'));
    let hits = store.predict(&tokenize("a"), 1);
    assert_eq!(hits.count_of(Token::C('b')), 1);
}

#[test]
fn predict_falls_back_to_short_contexts() {
    let mut store = ContextStore::new();
    store.record_transition(&tokenize("c"), Token::C('S'));
    let hits = store.predict(&tokenize("xabc"), 4);
    assert_eq!(hits.count_of(Token::C('S')), 1);
}

#[test]
fn generate_step_yields_a_recorded_successor() {
    let mut store = ContextStore::new();
    store.record_transition(&tokenize("a"), Token::C('b'));
    let step = store.generate_step(&tokenize("a"), 1);
    assert_eq!(step, Some(Token::C('b')));
}

#[test]
fn generate_from_unseen_seed_is_empty() {
    // the seed has no recorded successors at any backoff length
    let mut store = ContextStore::new();
    store.record_transition(&tokenize("zz"), Token::C('z'));
    let out = store.generate(&tokenize("q"), 2, 100);
    assert_eq!(out.len(), 0);
    let step = store.generate_step(&tokenize("q"), 2);
    assert_eq!(step, None);
}

#[test]
fn generate_follows_recorded_successors() {
    // a deterministic chain: a -> b -> c, then nothing after c
    let mut store = ContextStore::new();
    store.record_transition(&tokenize("a"), Token::C('b'));
    store.record_transition(&tokenize("b"), Token::C('c'));
    let out = store.generate(&tokenize("a"), 1, 100);
    assert_eq!(out, vec![Token::C('b'), Token::C('c')]);
}

#[test]
fn generate_respects_the_step_bound() {
    let mut store = ContextStore::new();
    store.record_transition(&tokenize("a"), Token::C('a'));
    let out = store.generate(&tokenize("a"), 1, 5);
    assert_eq!(out, vec![Token::C('a'); 5]);
}

#[test]
fn loading_a_duplicated_symbol_table_is_rejected() {
    let bad = TokenHits {
        entries: vec![
            TokenEntry { value: Token::C('a'), count: 1 },
            TokenEntry { value: Token::C('a'), count: 2 },
        ],
    };
    let bytes = encode_hits(&bad);
    let mut store = ContextStore::new();
    let key = hash_tokens(&tokenize("a"));
    assert_eq!(
        store.load_entry(key, &bytes),
        Err(DecodeError::DuplicateSymbol)
    );
}
