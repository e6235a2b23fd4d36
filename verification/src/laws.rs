//! The laws the store obeys, stated over its model and proved once for every
//! state: reading is a pure function of the state, recording moves exactly
//! one count by exactly one, recording under one key never touches another,
//! and backoff prediction picks the longest context with data.

use vstd::prelude::*;
use crate::digest::spec_key_of;
use crate::store::{spec_record_key, table_at};
use crate::token::{
    Token, TokenEntry, lemma_bump_count_other, lemma_bump_count_same, lemma_bump_wf, spec_bump,
    spec_count_of, wf_hits,
};
use crate::window::spec_predict;

verus! {

/// Reading is idempotent: the table a key resolves to is a function of the
/// store's state alone, so two reads without an intervening record return
/// identical tables.
pub proof fn lemma_read_idempotent(
    m: Map<Seq<u8>, Seq<TokenEntry>>,
    k: Seq<u8>,
    r1: Seq<TokenEntry>,
    r2: Seq<TokenEntry>,
)
    requires
        r1 == table_at(m, k),
        r2 == table_at(m, k),
    ensures
        r1 == r2,
{
}

/// Monotonicity: recording a transition raises the recorded symbol's count
/// under that key by exactly one — as long as the count has room to grow —
/// and never moves any other symbol's count there.
pub proof fn lemma_record_monotonic(
    m: Map<Seq<u8>, Seq<TokenEntry>>,
    k: Seq<u8>,
    next: Token,
    other: Token,
)
    ensures
        spec_count_of(table_at(m, k), next) < u64::MAX ==> spec_count_of(
            table_at(spec_record_key(m, k, next), k),
            next,
        ) == spec_count_of(table_at(m, k), next) + 1,
        other != next ==> spec_count_of(table_at(spec_record_key(m, k, next), k), other)
            == spec_count_of(table_at(m, k), other),
{
    let t = table_at(m, k);
    assert(table_at(spec_record_key(m, k, next), k) == spec_bump(t, next));
    lemma_bump_count_same(t, next);
    if other != next {
        lemma_bump_count_other(t, next, other);
    }
}

/// Uniqueness: recording preserves the one-record-per-symbol invariant of a
/// key's table, so any sequence of recordings against one context leaves at
/// most one record per distinct symbol.
pub proof fn lemma_record_uniqueness(m: Map<Seq<u8>, Seq<TokenEntry>>, k: Seq<u8>, next: Token)
    requires
        wf_hits(table_at(m, k)),
    ensures
        wf_hits(table_at(spec_record_key(m, k, next), k)),
{
    lemma_bump_wf(table_at(m, k), next);
}

/// Context isolation: recording under one key never changes the table of a
/// different key. Two distinct contexts encode to distinct byte strings
/// (`crate::codec::lemma_encode_tokens_injective`), so their keys coincide
/// only if the digest of distinct byte strings collides.
pub proof fn lemma_context_isolation(
    m: Map<Seq<u8>, Seq<TokenEntry>>,
    ka: Seq<u8>,
    next: Token,
    kb: Seq<u8>,
)
    requires
        ka != kb,
    ensures
        table_at(spec_record_key(m, ka, next), kb) == table_at(m, kb),
{
}

/// Backoff correctness: when some suffix length `l` within the limit has
/// recorded successors and every longer length within the limit has none,
/// prediction returns exactly the length-`l` table — never a shorter match.
pub proof fn lemma_backoff_longest(
    m: Map<Seq<u8>, Seq<TokenEntry>>,
    toks: Seq<Token>,
    lens: nat,
    l: nat,
)
    ensures
        (1 <= l <= lens && l <= toks.len() && table_at(
            m,
            spec_key_of(toks.skip(toks.len() - l)),
        ).len() > 0 && (forall|k: nat|
            #![trigger toks.skip(toks.len() - k)]
            l < k <= lens && k <= toks.len() ==> table_at(
                m,
                spec_key_of(toks.skip(toks.len() - k)),
            ).len() == 0)) ==> spec_predict(m, toks, lens) == table_at(
            m,
            spec_key_of(toks.skip(toks.len() - l)),
        ),
    decreases lens,
{
    if lens == 0 {
    } else {
        if lens == l {
        } else {
            lemma_backoff_longest(m, toks, (lens - 1) as nat, l);
        }
    }
}

/// Prediction on the empty store is empty for any input and any limit.
pub proof fn lemma_predict_empty_store(toks: Seq<Token>, lens: nat)
    ensures
        spec_predict(Map::<Seq<u8>, Seq<TokenEntry>>::empty(), toks, lens).len() == 0,
    decreases lens,
{
    if lens == 0 {
    } else {
        lemma_predict_empty_store(toks, (lens - 1) as nat);
    }
}

} // verus!
