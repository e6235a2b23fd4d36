use token_stash::bucket::{decode_pairs, encode_pairs};
use token_stash::codec::DecodeError;
use token_stash::store::ContextStore;
use token_stash::token::Token;
use token_stash::window::tokenize;

#[test]
fn pairs_round_trip() {
    let pairs: Vec<(Vec<u8>, Vec<u8>)> = vec![
        (b"alpha".to_vec(), vec![1, 2, 3]),
        (Vec::new(), Vec::new()),
        (b"beta".to_vec(), vec![0; 40]),
    ];
    let bytes = encode_pairs(&pairs);
    let back = decode_pairs(&bytes).unwrap();
    assert_eq!(back, pairs);
}

#[test]
fn empty_bucket_round_trip() {
    let pairs: Vec<(Vec<u8>, Vec<u8>)> = Vec::new();
    let bytes = encode_pairs(&pairs);
    assert_eq!(bytes.len(), 0);
    assert_eq!(decode_pairs(&bytes).unwrap(), pairs);
}

#[test]
fn truncated_bucket_is_rejected() {
    let pairs: Vec<(Vec<u8>, Vec<u8>)> = vec![(b"key".to_vec(), vec![7, 7])];
    let mut bytes = encode_pairs(&pairs);
    bytes.pop();
    assert_eq!(decode_pairs(&bytes).unwrap_err(), DecodeError::BadLength);
    let short: Vec<u8> = vec![1, 2, 3];
    assert_eq!(decode_pairs(&short).unwrap_err(), DecodeError::BadLength);
}

#[test]
fn export_import_round_trip() {
    let mut store = ContextStore::new();
    store.note_text("the cat sat on the mat", 4);
    let blob = store.export_db();

    let mut restored = ContextStore::new();
    restored.import_db(&blob).unwrap();

    for ctx in ["t", "he", " ca", "the"] {
        let toks = tokenize(ctx);
        let a = store.successors_of(&toks);
        let b = restored.successors_of(&toks);
        assert_eq!(a.len(), b.len());
        let mut i: usize = 0;
        while i < a.len() {
            let e = a.get(i);
            assert_eq!(b.count_of(e.value), e.count);
            i += 1;
        }
    }
    // and generation from the restored store still follows recorded data
    let hits = restored.predict(&tokenize("the c"), 3);
    assert!(hits.count_of(Token::C('a')) >= 1);
}

#[test]
fn import_on_corrupt_blob_fails() {
    let mut store = ContextStore::new();
    store.note_text("abc", 2);
    let mut blob = store.export_db();
    blob.pop();
    let mut restored = ContextStore::new();
    assert!(restored.import_db(&blob).is_err());
}
