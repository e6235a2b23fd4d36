use token_stash::store::ContextStore;
use token_stash::token::{Token, TokenHits};
use token_stash::window::tokenize;

fn counts_of(hits: &TokenHits) -> Vec<(Token, u64)> {
    let mut v: Vec<(Token, u64)> = Vec::new();
    let mut i: usize = 0;
    while i < hits.len() {
        let e = hits.get(i);
        v.push((e.value, e.count));
        i += 1;
    }
    v
}

#[test]
fn empty_store_has_no_successors() {
    let store = ContextStore::new();
    let ctx = tokenize("a");
    let hits = store.successors_of(&ctx);
    assert_eq!(hits.len(), 0);
}

#[test]
fn record_then_read() {
    let mut store = ContextStore::new();
    let ctx = tokenize("a");
    store.record_transition(&ctx, Token::C('b'));
    let hits = store.successors_of(&ctx);
    assert_eq!(counts_of(&hits), vec![(Token::C('b'), 1)]);
}

#[test]
fn record_with_empty_context() {
    let mut store = ContextStore::new();
    let ctx: Vec<Token> = Vec::new();
    store.record_transition(&ctx, Token::C('x'));
    let hits = store.successors_of(&ctx);
    assert_eq!(counts_of(&hits), vec![(Token::C('x'), 1)]);
}

#[test]
fn reading_is_idempotent() {
    let mut store = ContextStore::new();
    let ctx = tokenize("ab");
    store.record_transition(&ctx, Token::C('c'));
    store.record_transition(&ctx, Token::C('d'));
    let first = store.successors_of(&ctx);
    let second = store.successors_of(&ctx);
    assert_eq!(counts_of(&first), counts_of(&second));
}

#[test]
fn repeated_records_increment_by_one() {
    let mut store = ContextStore::new();
    let ctx = tokenize("a");
    store.record_transition(&ctx, Token::C('b'));
    assert_eq!(store.successors_of(&ctx).count_of(Token::C('b')), 1);
    store.record_transition(&ctx, Token::C('b'));
    assert_eq!(store.successors_of(&ctx).count_of(Token::C('b')), 2);
    store.record_transition(&ctx, Token::C('b'));
    assert_eq!(store.successors_of(&ctx).count_of(Token::C('b')), 3);
}

#[test]
fn recording_one_symbol_leaves_others_alone() {
    let mut store = ContextStore::new();
    let ctx = tokenize("a");
    store.record_transition(&ctx, Token::C('b'));
    store.record_transition(&ctx, Token::C('c'));
    store.record_transition(&ctx, Token::C('b'));
    let hits = store.successors_of(&ctx);
    assert_eq!(hits.count_of(Token::C('b')), 2);
    assert_eq!(hits.count_of(Token::C('c')), 1);
}

#[test]
fn tables_keep_one_record_per_symbol() {
    let mut store = ContextStore::new();
    let ctx = tokenize("a");
    for _ in 0..5 {
        store.record_transition(&ctx, Token::C('b'));
        store.record_transition(&ctx, Token::C('c'));
    }
    let hits = store.successors_of(&ctx);
    assert_eq!(hits.len(), 2);
    assert_eq!(hits.count_of(Token::C('b')), 5);
    assert_eq!(hits.count_of(Token::C('c')), 5);
}

#[test]
fn contexts_are_isolated() {
    let mut store = ContextStore::new();
    let a = tokenize("a");
    let b = tokenize("b");
    store.record_transition(&b, Token::C('z'));
    let before = counts_of(&store.successors_of(&b));
    store.record_transition(&a, Token::C('y'));
    let after = counts_of(&store.successors_of(&b));
    assert_eq!(before, after);
    assert_eq!(store.successors_of(&a).count_of(Token::C('y')), 1);
}

#[test]
fn distinct_token_kinds_are_distinct_contexts() {
    let mut store = ContextStore::new();
    let as_char = vec![Token::C('a')];
    let as_num = vec![Token::Num(97)];
    store.record_transition(&as_char, Token::C('x'));
    let hits = store.successors_of(&as_num);
    assert_eq!(hits.len(), 0);
}

#[test]
fn snapshot_and_load_round_trip() {
    let mut store = ContextStore::new();
    let a = tokenize("ab");
    let b = tokenize("c");
    store.record_transition(&a, Token::C('x'));
    store.record_transition(&a, Token::C('x'));
    store.record_transition(&b, Token::Num(7));
    let saved = store.snapshot();
    assert_eq!(saved.len(), 2);

    let mut restored = ContextStore::new();
    for (key, bytes) in saved {
        restored.load_entry(key, &bytes).unwrap();
    }
    assert_eq!(
        counts_of(&restored.successors_of(&a)),
        counts_of(&store.successors_of(&a))
    );
    assert_eq!(
        counts_of(&restored.successors_of(&b)),
        counts_of(&store.successors_of(&b))
    );
}
