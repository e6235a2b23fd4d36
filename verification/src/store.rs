//! The context store: a durable-by-export mapping from context keys to
//! frequency tables, with the two core operations — record a transition and
//! list the successors of a context.
//!
//! The store keeps every touched table in memory (the write-back strategy:
//! unbounded for the lifetime of one run, flushed explicitly). `snapshot`
//! hands the encoded tables out for durable storage, and `load_entry` brings
//! persisted entries back in; the surrounding program owns the files or the
//! embedded database they travel through.

use vstd::prelude::*;
use crate::codec::{DecodeError, encode_hits, decode_hits, spec_decode_hits, spec_encode_hits};
use crate::digest::{hash_tokens, spec_key_of};
use crate::rng::{fresh_rng, rand_below};
use crate::token::{Token, TokenEntry, TokenHits, lemma_bump_wf, spec_bump, wf_hits};

verus! {

/// The table a model maps `k` to, with absence read as the empty table:
/// a key that was never written is not an error.
pub open spec fn table_at(m: Map<Seq<u8>, Seq<TokenEntry>>, k: Seq<u8>) -> Seq<TokenEntry> {
    if m.contains_key(k) {
        m[k]
    } else {
        Seq::<TokenEntry>::empty()
    }
}

/// The model after one transition is recorded under key `k`: the table at
/// `k` has `next` bumped; no other key changes.
pub open spec fn spec_record_key(
    m: Map<Seq<u8>, Seq<TokenEntry>>,
    k: Seq<u8>,
    next: Token,
) -> Map<Seq<u8>, Seq<TokenEntry>> {
    m.insert(k, spec_bump(table_at(m, k), next))
}

/// The model after recording that `next` followed the context `ctx`.
pub open spec fn spec_record(
    m: Map<Seq<u8>, Seq<TokenEntry>>,
    ctx: Seq<Token>,
    next: Token,
) -> Map<Seq<u8>, Seq<TokenEntry>> {
    spec_record_key(m, spec_key_of(ctx), next)
}

/// The model after loading a list of persisted (key, encoded-table) pairs in
/// order: each table is decoded and checked, later pairs win on a repeated
/// key, and the first corrupt record decides the error.
pub open spec fn spec_load_pairs(
    m: Map<Seq<u8>, Seq<TokenEntry>>,
    pairs: Seq<(Seq<u8>, Seq<u8>)>,
) -> Result<Map<Seq<u8>, Seq<TokenEntry>>, DecodeError>
    decreases pairs.len(),
{
    if pairs.len() == 0 {
        Ok(m)
    } else {
        match spec_decode_hits(pairs[0].1) {
            Ok(t) => {
                if wf_hits(t) {
                    spec_load_pairs(m.insert(pairs[0].0, t), pairs.skip(1))
                } else {
                    Err(DecodeError::DuplicateSymbol)
                }
            },
            Err(e) => Err(e),
        }
    }
}

/// A context-indexed frequency store. Its model is the mapping from storage
/// keys to frequency tables.
pub struct ContextStore {
    entries: Vec<(Vec<u8>, TokenHits)>,
    rng: rand::rngs::ThreadRng,
}

/// The mapping an association list stands for; later entries win, though the
/// store never keeps two entries under one key.
spec fn assoc_map(s: Seq<(Vec<u8>, TokenHits)>) -> Map<Seq<u8>, Seq<TokenEntry>>
    decreases s.len(),
{
    if s.len() == 0 {
        Map::<Seq<u8>, Seq<TokenEntry>>::empty()
    } else {
        assoc_map(s.drop_last()).insert(s.last().0@, s.last().1@)
    }
}

spec fn keys_distinct(s: Seq<(Vec<u8>, TokenHits)>) -> bool {
    forall|i: int, j: int| 0 <= i < j < s.len() ==> s[i].0@ != s[j].0@
}

proof fn lemma_assoc_contains(s: Seq<(Vec<u8>, TokenHits)>, k: Seq<u8>)
    ensures
        assoc_map(s).contains_key(k) <==> (exists|i: int| 0 <= i < s.len() && s[i].0@ == k),
    decreases s.len(),
{
    if s.len() == 0 {
    } else {
        lemma_assoc_contains(s.drop_last(), k);
        if assoc_map(s).contains_key(k) {
            if k == s.last().0@ {
                assert(s[s.len() - 1].0@ == k);
            } else {
                let i = choose|i: int| 0 <= i < s.drop_last().len() && s.drop_last()[i].0@ == k;
                assert(s[i] == s.drop_last()[i]);
            }
        }
        if exists|i: int| 0 <= i < s.len() && s[i].0@ == k {
            let i = choose|i: int| 0 <= i < s.len() && s[i].0@ == k;
            if i < s.len() - 1 {
                assert(s.drop_last()[i] == s[i]);
            }
        }
    }
}

proof fn lemma_assoc_at(s: Seq<(Vec<u8>, TokenHits)>, i: int)
    requires
        keys_distinct(s),
        0 <= i < s.len(),
    ensures
        assoc_map(s).contains_key(s[i].0@),
        assoc_map(s)[s[i].0@] == s[i].1@,
    decreases s.len(),
{
    if i == s.len() - 1 {
    } else {
        assert(keys_distinct(s.drop_last()));
        assert(s.drop_last()[i] == s[i]);
        lemma_assoc_at(s.drop_last(), i);
        assert(s[i].0@ != s.last().0@);
    }
}

proof fn lemma_assoc_update(s: Seq<(Vec<u8>, TokenHits)>, i: int, t: (Vec<u8>, TokenHits))
    requires
        keys_distinct(s),
        0 <= i < s.len(),
        t.0@ == s[i].0@,
    ensures
        assoc_map(s.update(i, t)) == assoc_map(s).insert(t.0@, t.1@),
    decreases s.len(),
{
    if i == s.len() - 1 {
        assert(s.update(i, t).drop_last() =~= s.drop_last());
        assert(s.update(i, t).last() == t);
        assert(assoc_map(s.drop_last()).insert(s.last().0@, s.last().1@).insert(t.0@, t.1@)
            =~= assoc_map(s.drop_last()).insert(t.0@, t.1@));
    } else {
        assert(keys_distinct(s.drop_last()));
        assert(s.drop_last()[i] == s[i]);
        lemma_assoc_update(s.drop_last(), i, t);
        assert(s.update(i, t).drop_last() =~= s.drop_last().update(i, t));
        assert(s.update(i, t).last() == s.last());
        assert(s[i].0@ != s.last().0@);
        assert(assoc_map(s.drop_last()).insert(t.0@, t.1@).insert(s.last().0@, s.last().1@)
            =~= assoc_map(s.drop_last()).insert(s.last().0@, s.last().1@).insert(t.0@, t.1@));
    }
}

impl View for ContextStore {
    type V = Map<Seq<u8>, Seq<TokenEntry>>;

    closed spec fn view(&self) -> Map<Seq<u8>, Seq<TokenEntry>> {
        assoc_map(self.entries@)
    }
}

/// Whether two byte strings are equal.
fn bytes_eq(a: &Vec<u8>, b: &Vec<u8>) -> (r: bool)
    ensures
        r <==> a@ == b@,
{
    if a.len() != b.len() {
        return false;
    }
    let n = a.len();
    let mut i: usize = 0;
    while i < n
        invariant
            i <= n,
            n == a@.len(),
            n == b@.len(),
            forall|j: int| 0 <= j < i ==> a@[j] == b@[j],
        decreases n - i,
    {
        if a[i] != b[i] {
            return false;
        }
        i += 1;
    }
    proof {
        assert(a@ =~= b@);
    }
    true
}

/// Copy a byte vector.
pub(crate) fn copy_bytes(v: &Vec<u8>) -> (r: Vec<u8>)
    ensures
        r@ == v@,
{
    let mut r: Vec<u8> = Vec::new();
    let mut i: usize = 0;
    while i < v.len()
        invariant
            i <= v@.len(),
            r@ == v@.take(i as int),
        decreases v@.len() - i,
    {
        r.push(v[i]);
        proof {
            assert(v@.take(i + 1) =~= v@.take(i as int).push(v@[i as int]));
        }
        i += 1;
    }
    proof {
        assert(v@.take(v@.len() as int) =~= v@);
    }
    r
}

/// Copy a frequency table.
fn copy_hits(h: &TokenHits) -> (r: TokenHits)
    ensures
        r@ == h@,
{
    let mut entries: Vec<TokenEntry> = Vec::new();
    let mut i: usize = 0;
    while i < h.entries.len()
        invariant
            i <= h@.len(),
            entries@ == h@.take(i as int),
        decreases h@.len() - i,
    {
        entries.push(h.entries[i]);
        proof {
            assert(h@.take(i + 1) =~= h@.take(i as int).push(h@[i as int]));
        }
        i += 1;
    }
    proof {
        assert(h@.take(h@.len() as int) =~= h@);
    }
    TokenHits { entries }
}

impl ContextStore {
    /// Internal invariant: one entry per key, every table well formed.
    pub closed spec fn wf(&self) -> bool {
        &&& keys_distinct(self.entries@)
        &&& forall|i: int| 0 <= i < self.entries@.len() ==> wf_hits(self.entries@[i].1@)
    }

    /// Every table a well-formed store holds is itself well formed: at most
    /// one record per distinct symbol.
    pub proof fn lemma_tables_wf(&self, k: Seq<u8>)
        requires
            self.wf(),
        ensures
            wf_hits(table_at(self@, k)),
    {
        lemma_assoc_contains(self.entries@, k);
        if self@.contains_key(k) {
            let i = choose|i: int| 0 <= i < self.entries@.len() && self.entries@[i].0@ == k;
            lemma_assoc_at(self.entries@, i);
        }
    }

    /// An empty store: no context has any recorded successor.
    pub fn new() -> (r: ContextStore)
        ensures
            r.wf(),
            r@ == Map::<Seq<u8>, Seq<TokenEntry>>::empty(),
    {
        ContextStore { entries: Vec::new(), rng: fresh_rng() }
    }

    /// The stored table under `key`, or the empty table if `key` was never
    /// written. A pure read.
    fn get_table(&self, key: &Vec<u8>) -> (r: TokenHits)
        requires
            self.wf(),
        ensures
            r@ == table_at(self@, key@),
            wf_hits(r@),
    {
        let n = self.entries.len();
        let mut i: usize = 0;
        while i < n
            invariant
                self.wf(),
                i <= n,
                n == self.entries@.len(),
                forall|j: int| 0 <= j < i ==> self.entries@[j].0@ != key@,
            decreases n - i,
        {
            if bytes_eq(&self.entries[i].0, key) {
                proof {
                    lemma_assoc_at(self.entries@, i as int);
                }
                return copy_hits(&self.entries[i].1);
            }
            i += 1;
        }
        proof {
            lemma_assoc_contains(self.entries@, key@);
        }
        TokenHits::new()
    }

    /// Associate `hits` with `key`, replacing any table stored under it.
    fn put_table(&mut self, key: Vec<u8>, hits: TokenHits)
        requires
            old(self).wf(),
            wf_hits(hits@),
        ensures
            final(self).wf(),
            final(self)@ == old(self)@.insert(key@, hits@),
    {
        let ghost s = self.entries@;
        let n = self.entries.len();
        let mut i: usize = 0;
        while i < n
            invariant
                s == old(self).entries@,
                self.entries@ == s,
                old(self).wf(),
                wf_hits(hits@),
                i <= n,
                n == s.len(),
                forall|j: int| 0 <= j < i ==> s[j].0@ != key@,
            decreases n - i,
        {
            if bytes_eq(&self.entries[i].0, &key) {
                self.entries[i].1 = hits;
                proof {
                    let t = self.entries@[i as int];
                    assert(self.entries@ =~= s.update(i as int, t));
                    lemma_assoc_update(s, i as int, t);
                    assert(keys_distinct(self.entries@));
                }
                return ;
            }
            i += 1;
        }
        self.entries.push((key, hits));
        proof {
            assert(self.entries@.drop_last() =~= s);
            assert(keys_distinct(self.entries@));
        }
    }

    /// Record one observed transition: the successor `next` was seen once
    /// more immediately after `context`. Creates the record at count 1 on
    /// first observation; safe to call with an empty context.
    pub fn record_transition(&mut self, context: &Vec<Token>, next: Token)
        requires
            old(self).wf(),
        ensures
            final(self).wf(),
            final(self)@ == spec_record(old(self)@, context@, next),
    {
        let key = hash_tokens(context);
        let mut hits = self.get_table(&key);
        hits.bump(next);
        proof {
            lemma_bump_wf(table_at(self@, key@), next);
        }
        self.put_table(key, hits);
    }

    /// The successors recorded for `context`: the stored frequency table, or
    /// the empty table if the context was never observed. A pure read.
    pub fn successors_of(&self, context: &Vec<Token>) -> (r: TokenHits)
        requires
            self.wf(),
        ensures
            r@ == table_at(self@, spec_key_of(context@)),
            wf_hits(r@),
    {
        let key = hash_tokens(context);
        self.get_table(&key)
    }

    /// Every stored entry as a (key, encoded table) pair, for durable
    /// storage: each pair encodes the table the store holds under its key,
    /// every held key appears, and no key appears twice.
    pub fn snapshot(&self) -> (r: Vec<(Vec<u8>, Vec<u8>)>)
        requires
            self.wf(),
        ensures
            forall|i: int|
                0 <= i < r@.len() ==> self@.contains_key(r@[i].0@) && r@[i].1@ == spec_encode_hits(
                    self@[r@[i].0@],
                ),
            forall|k: Seq<u8>|
                self@.contains_key(k) ==> exists|i: int| 0 <= i < r@.len() && r@[i].0@ == k,
            forall|i: int, j: int| 0 <= i < j < r@.len() ==> r@[i].0@ != r@[j].0@,
    {
        let n = self.entries.len();
        let mut r: Vec<(Vec<u8>, Vec<u8>)> = Vec::new();
        let mut i: usize = 0;
        while i < n
            invariant
                self.wf(),
                i <= n,
                n == self.entries@.len(),
                r@.len() == i,
                forall|j: int| 0 <= j < i ==> r@[j].0@ == self.entries@[j].0@,
                forall|j: int|
                    0 <= j < i ==> self@.contains_key(r@[j].0@) && r@[j].1@ == spec_encode_hits(
                        self@[r@[j].0@],
                    ),
            decreases n - i,
        {
            let key = copy_bytes(&self.entries[i].0);
            let encoded = encode_hits(&self.entries[i].1);
            proof {
                lemma_assoc_at(self.entries@, i as int);
            }
            r.push((key, encoded));
            i += 1;
        }
        proof {
            assert forall|k: Seq<u8>| self@.contains_key(k) implies exists|j: int|
                0 <= j < r@.len() && r@[j].0@ == k by {
                lemma_assoc_contains(self.entries@, k);
                let j = choose|j: int| 0 <= j < self.entries@.len() && self.entries@[j].0@ == k;
                assert(r@[j].0@ == k);
            }
        }
        r
    }

    /// Draw an index below `n` from the store's random source. The stored
    /// tables are untouched; nothing is assumed about which index comes back.
    pub(crate) fn draw_below(&mut self, n: usize) -> (r: usize)
        requires
            n >= 1,
        ensures
            r < n,
            final(self)@ == old(self)@,
            final(self).wf() == old(self).wf(),
    {
        rand_below(&mut self.rng, n)
    }

    /// Bring one persisted entry back in: decode `bytes` and store the table
    /// under `key`. A byte string that does not decode to a well-formed
    /// table is rejected unchanged — corrupt frequency data is an error,
    /// never silently dropped.
    pub fn load_entry(&mut self, key: Vec<u8>, bytes: &Vec<u8>) -> (r: Result<(), DecodeError>)
        requires
            old(self).wf(),
        ensures
            final(self).wf(),
            (match spec_decode_hits(bytes@) {
                Ok(s) => {
                    if wf_hits(s) {
                        r is Ok && final(self)@ == old(self)@.insert(key@, s)
                    } else {
                        r == Err::<(), DecodeError>(DecodeError::DuplicateSymbol) && final(self)@
                            == old(self)@
                    }
                },
                Err(e) => r == Err::<(), DecodeError>(e) && final(self)@ == old(self)@,
            }),
    {
        match decode_hits(bytes) {
            Ok(hits) => {
                if hits.is_wf() {
                    self.put_table(key, hits);
                    Ok(())
                } else {
                    Err(DecodeError::DuplicateSymbol)
                }
            },
            Err(e) => Err(e),
        }
    }
}

} // verus!
