//! The one-file store layout: a whole key-to-table mapping framed into a
//! single byte string, one length-prefixed record per context key.
//!
//! This is the durability unit of the single-file backends: a bucket file
//! holds many contexts' tables at once, keyed by their hash text. Encoding
//! and decoding invert each other, so a store flushed to one blob and read
//! back holds the same tables.

use vstd::prelude::*;
use vstd::bytes::{spec_u64_from_le_bytes, spec_u64_to_le_bytes, u64_from_le_bytes, u64_to_le_bytes};
use vstd::bytes::lemma_auto_spec_u64_to_from_le_bytes;
use vstd::slice::slice_subrange;
use crate::codec::{DecodeError, spec_decode_hits, spec_encode_hits};
use crate::store::{ContextStore, copy_bytes, spec_load_pairs};
use crate::token::{TokenEntry, wf_hits};

verus! {

/// One record of a bucket: the key's length, the key, the encoded table's
/// length, the encoded table.
pub open spec fn spec_encode_pair(key: Seq<u8>, val: Seq<u8>) -> Seq<u8> {
    spec_u64_to_le_bytes(key.len() as u64) + key + spec_u64_to_le_bytes(val.len() as u64) + val
}

/// A bucket's byte string: its records, concatenated.
pub open spec fn spec_encode_pairs(s: Seq<(Seq<u8>, Seq<u8>)>) -> Seq<u8>
    decreases s.len(),
{
    if s.len() == 0 {
        Seq::<u8>::empty()
    } else {
        spec_encode_pair(s[0].0, s[0].1) + spec_encode_pairs(s.skip(1))
    }
}

/// The key-value pairs a bucket byte string stands for, or why it stands for
/// none: any truncated record is rejected.
pub open spec fn spec_decode_pairs(b: Seq<u8>) -> Result<Seq<(Seq<u8>, Seq<u8>)>, DecodeError>
    decreases b.len(),
{
    if b.len() == 0 {
        Ok(Seq::<(Seq<u8>, Seq<u8>)>::empty())
    } else if b.len() < 8 {
        Err(DecodeError::BadLength)
    } else {
        let klen = spec_u64_from_le_bytes(b.subrange(0, 8)) as int;
        if b.len() < 8 + klen {
            Err(DecodeError::BadLength)
        } else {
            let key = b.subrange(8, 8 + klen);
            let b2 = b.skip(8 + klen);
            if b2.len() < 8 {
                Err(DecodeError::BadLength)
            } else {
                let vlen = spec_u64_from_le_bytes(b2.subrange(0, 8)) as int;
                if b2.len() < 8 + vlen {
                    Err(DecodeError::BadLength)
                } else {
                    let val = b2.subrange(8, 8 + vlen);
                    match spec_decode_pairs(b2.skip(8 + vlen)) {
                        Ok(rest) => Ok(seq![(key, val)] + rest),
                        Err(e) => Err(e),
                    }
                }
            }
        }
    }
}

/// Append one length-prefixed byte string.
fn push_framed(out: &mut Vec<u8>, piece: &Vec<u8>)
    ensures
        final(out)@ == old(out)@ + spec_u64_to_le_bytes(piece@.len() as u64) + piece@,
{
    let mut len_bytes = u64_to_le_bytes(piece.len() as u64);
    out.append(&mut len_bytes);
    let mut body = copy_bytes(piece);
    out.append(&mut body);
}

/// Appending one record extends the bucket encoding by that record's bytes.
proof fn lemma_encode_pairs_push(s: Seq<(Seq<u8>, Seq<u8>)>, p: (Seq<u8>, Seq<u8>))
    ensures
        spec_encode_pairs(s.push(p)) == spec_encode_pairs(s) + spec_encode_pair(p.0, p.1),
    decreases s.len(),
{
    lemma_auto_spec_u64_to_from_le_bytes();
    if s.len() == 0 {
        assert(s =~= Seq::<(Seq<u8>, Seq<u8>)>::empty());
        assert(s.push(p).skip(1) =~= s);
        assert(spec_encode_pairs(s) == Seq::<u8>::empty());
        assert(s.push(p)[0] == p);
        assert(spec_encode_pairs(s.push(p)) =~= spec_encode_pairs(s) + spec_encode_pair(p.0, p.1));
    } else {
        assert(s.push(p).skip(1) =~= s.skip(1).push(p));
        lemma_encode_pairs_push(s.skip(1), p);
        assert(s.push(p)[0] == s[0]);
        assert(spec_encode_pairs(s.push(p)) =~= spec_encode_pairs(s) + spec_encode_pair(p.0, p.1));
    }
}

/// The views of a list of key-value byte vectors.
pub open spec fn pairs_view(s: Seq<(Vec<u8>, Vec<u8>)>) -> Seq<(Seq<u8>, Seq<u8>)>
    decreases s.len(),
{
    if s.len() == 0 {
        Seq::<(Seq<u8>, Seq<u8>)>::empty()
    } else {
        pairs_view(s.drop_last()).push((s.last().0@, s.last().1@))
    }
}

/// The view list has one entry per pair, in order.
pub proof fn lemma_pairs_view_shape(s: Seq<(Vec<u8>, Vec<u8>)>)
    ensures
        pairs_view(s).len() == s.len(),
        forall|i: int| 0 <= i < s.len() ==> pairs_view(s)[i] == (s[i].0@, s[i].1@),
    decreases s.len(),
{
    if s.len() == 0 {
    } else {
        lemma_pairs_view_shape(s.drop_last());
        assert forall|i: int| 0 <= i < s.len() implies pairs_view(s)[i] == (s[i].0@, s[i].1@) by {
            if i < s.len() - 1 {
                assert(pairs_view(s)[i] == pairs_view(s.drop_last())[i]);
                assert(s.drop_last()[i] == s[i]);
            }
        }
    }
}

/// Frame a list of key-value byte strings into one bucket byte string.
pub fn encode_pairs(pairs: &Vec<(Vec<u8>, Vec<u8>)>) -> (r: Vec<u8>)
    ensures
        r@ == spec_encode_pairs(pairs_view(pairs@)),
{
    let mut out: Vec<u8> = Vec::new();
    let mut i: usize = 0;
    proof {
        lemma_pairs_view_shape(pairs@);
        assert(pairs@.take(0) =~= Seq::<(Vec<u8>, Vec<u8>)>::empty());
    }
    while i < pairs.len()
        invariant
            i <= pairs@.len(),
            out@ == spec_encode_pairs(pairs_view(pairs@.take(i as int))),
        decreases pairs@.len() - i,
    {
        push_framed(&mut out, &pairs[i].0);
        push_framed(&mut out, &pairs[i].1);
        proof {
            lemma_auto_spec_u64_to_from_le_bytes();
            assert(pairs@.take(i + 1) =~= pairs@.take(i as int).push(pairs@[i as int]));
            assert(pairs@.take(i + 1).drop_last() =~= pairs@.take(i as int));
            let pv = pairs_view(pairs@.take(i as int));
            let p = (pairs@[i as int].0@, pairs@[i as int].1@);
            assert(pairs_view(pairs@.take(i + 1)) == pv.push(p));
            lemma_encode_pairs_push(pv, p);
            assert(out@ =~= spec_encode_pairs(pv) + spec_encode_pair(p.0, p.1));
        }
        i += 1;
    }
    proof {
        assert(pairs@.take(pairs@.len() as int) =~= pairs@);
    }
    out
}

/// What `spec_decode_pairs` yields once `acc` is already decoded.
pub open spec fn spec_decode_pairs_onto(acc: Seq<(Seq<u8>, Seq<u8>)>, b: Seq<u8>) -> Result<
    Seq<(Seq<u8>, Seq<u8>)>,
    DecodeError,
> {
    match spec_decode_pairs(b) {
        Ok(rest) => Ok(acc + rest),
        Err(e) => Err(e),
    }
}

/// Split a bucket byte string back into its key-value byte strings.
pub fn decode_pairs(bytes: &Vec<u8>) -> (r: Result<Vec<(Vec<u8>, Vec<u8>)>, DecodeError>)
    ensures
        (match spec_decode_pairs(bytes@) {
            Ok(s) => r matches Ok(v) && pairs_view(v@) == s,
            Err(e) => (r matches Err(e2) && e2 == e),
        }),
{
    let n = bytes.len();
    let mut out: Vec<(Vec<u8>, Vec<u8>)> = Vec::new();
    let mut i: usize = 0;
    proof {
        assert(bytes@.skip(0) =~= bytes@);
        assert(pairs_view(out@) =~= Seq::<(Seq<u8>, Seq<u8>)>::empty());
        assert(pairs_view(out@) + spec_decode_pairs(bytes@)->Ok_0 =~= spec_decode_pairs(
            bytes@,
        )->Ok_0);
    }
    while i < n
        invariant
            i <= n,
            n == bytes@.len(),
            spec_decode_pairs(bytes@) == spec_decode_pairs_onto(pairs_view(out@), bytes@.skip(
                i as int,
            )),
        decreases n - i,
    {
        let ghost rem = bytes@.skip(i as int);
        proof {
            lemma_auto_spec_u64_to_from_le_bytes();
            assert(rem.len() == n - i);
        }
        if n - i < 8 {
            return Err(DecodeError::BadLength);
        }
        let klen64 = u64_from_le_bytes(slice_subrange(bytes.as_slice(), i, i + 8));
        proof {
            assert(rem.subrange(0, 8) =~= bytes@.subrange(i as int, i + 8));
        }
        if klen64 > (n - i - 8) as u64 {
            return Err(DecodeError::BadLength);
        }
        let klen = klen64 as usize;
        let key = copy_slice_range(bytes, i + 8, i + 8 + klen);
        proof {
            assert(rem.subrange(8, 8 + klen64 as int) =~= bytes@.subrange(
                i + 8,
                i + 8 + klen64 as int,
            ));
        }
        let j = i + 8 + klen;
        let ghost rem2 = bytes@.skip(j as int);
        proof {
            assert(rem2 =~= rem.skip(8 + klen64 as int));
        }
        if n - j < 8 {
            return Err(DecodeError::BadLength);
        }
        let vlen64 = u64_from_le_bytes(slice_subrange(bytes.as_slice(), j, j + 8));
        proof {
            assert(rem2.subrange(0, 8) =~= bytes@.subrange(j as int, j + 8));
        }
        if vlen64 > (n - j - 8) as u64 {
            return Err(DecodeError::BadLength);
        }
        let vlen = vlen64 as usize;
        let val = copy_slice_range(bytes, j + 8, j + 8 + vlen);
        proof {
            assert(rem2.subrange(8, 8 + vlen64 as int) =~= bytes@.subrange(
                j + 8,
                j + 8 + vlen64 as int,
            ));
        }
        let ghost out_before = out@;
        out.push((key, val));
        proof {
            assert(rem2.skip(8 + vlen64 as int) =~= bytes@.skip(j + 8 + vlen64 as int));
            assert(out@.drop_last() =~= out_before);
            let kv = (rem.subrange(8, 8 + klen64 as int), rem2.subrange(8, 8 + vlen64 as int));
            assert(pairs_view(out@) == pairs_view(out_before).push(kv));
            match spec_decode_pairs(rem2.skip(8 + vlen64 as int)) {
                Ok(rest) => {
                    assert(spec_decode_pairs(rem) == Ok::<Seq<(Seq<u8>, Seq<u8>)>, DecodeError>(
                        seq![kv] + rest,
                    ));
                    assert(pairs_view(out_before) + (seq![kv] + rest) =~= pairs_view(out@) + rest);
                },
                Err(_) => {},
            }
        }
        i = j + 8 + vlen;
    }
    proof {
        assert(bytes@.skip(n as int) =~= Seq::<u8>::empty());
        assert(spec_decode_pairs(bytes@.skip(n as int)) == Ok::<Seq<(Seq<u8>, Seq<u8>)>,
            DecodeError,
        >(Seq::<(Seq<u8>, Seq<u8>)>::empty()));
        assert(pairs_view(out@) + Seq::<(Seq<u8>, Seq<u8>)>::empty() =~= pairs_view(out@));
    }
    Ok(out)
}

/// Copy the bytes at `[from, to)`.
fn copy_slice_range(v: &Vec<u8>, from: usize, to: usize) -> (r: Vec<u8>)
    requires
        from <= to <= v@.len(),
    ensures
        r@ == v@.subrange(from as int, to as int),
{
    let mut r: Vec<u8> = Vec::new();
    let mut i: usize = from;
    proof {
        assert(v@.subrange(from as int, from as int) =~= Seq::<u8>::empty());
    }
    while i < to
        invariant
            from <= i <= to,
            to <= v@.len(),
            r@ == v@.subrange(from as int, i as int),
        decreases to - i,
    {
        r.push(v[i]);
        proof {
            assert(v@.subrange(from as int, i + 1) =~= v@.subrange(from as int, i as int).push(
                v@[i as int],
            ));
        }
        i += 1;
    }
    r
}

/// Round trip: decoding the encoding of any list of key-value byte strings
/// yields that list back, as long as each piece's length fits the 8-byte
/// frame (a machine limit no in-memory value exceeds).
pub proof fn lemma_bucket_round_trip(s: Seq<(Seq<u8>, Seq<u8>)>)
    requires
        forall|i: int|
            0 <= i < s.len() ==> #[trigger] s[i].0.len() <= u64::MAX && s[i].1.len() <= u64::MAX,
    ensures
        spec_decode_pairs(spec_encode_pairs(s)) == Ok::<Seq<(Seq<u8>, Seq<u8>)>, DecodeError>(s),
    decreases s.len(),
{
    lemma_auto_spec_u64_to_from_le_bytes();
    if s.len() == 0 {
        assert(spec_encode_pairs(s) =~= Seq::<u8>::empty());
        assert(s =~= Seq::<(Seq<u8>, Seq<u8>)>::empty());
    } else {
        let key = s[0].0;
        let val = s[0].1;
        let b = spec_encode_pairs(s);
        assert(b =~= spec_encode_pair(key, val) + spec_encode_pairs(s.skip(1)));
        assert(b.len() >= 16 + key.len() + val.len());
        assert(b.subrange(0, 8) =~= spec_u64_to_le_bytes(key.len() as u64));
        let klen = spec_u64_from_le_bytes(b.subrange(0, 8)) as int;
        assert(klen == key.len());
        assert(b.subrange(8, 8 + klen) =~= key);
        let b2 = b.skip(8 + klen);
        assert(b2 =~= spec_u64_to_le_bytes(val.len() as u64) + val + spec_encode_pairs(s.skip(1)));
        assert(b2.subrange(0, 8) =~= spec_u64_to_le_bytes(val.len() as u64));
        let vlen = spec_u64_from_le_bytes(b2.subrange(0, 8)) as int;
        assert(vlen == val.len());
        assert(b2.subrange(8, 8 + vlen) =~= val);
        assert(b2.skip(8 + vlen) =~= spec_encode_pairs(s.skip(1)));
        assert(forall|i: int|
            0 <= i < s.skip(1).len() ==> #[trigger] s.skip(1)[i].0.len() <= u64::MAX && s.skip(
                1,
            )[i].1.len() <= u64::MAX) by {
            assert forall|i: int|
                0 <= i < s.skip(1).len() implies #[trigger] s.skip(1)[i].0.len() <= u64::MAX && s.skip(
                1,
            )[i].1.len() <= u64::MAX by {
                assert(s.skip(1)[i] == s[i + 1]);
            }
        }
        lemma_bucket_round_trip(s.skip(1));
        assert(spec_decode_pairs(b) == Ok::<Seq<(Seq<u8>, Seq<u8>)>, DecodeError>(
            seq![(key, val)] + s.skip(1),
        ));
        assert((key, val) == s[0]);
        assert(seq![s[0]] + s.skip(1) =~= s);
    }
}

/// Whether a decoded bucket is exactly the content of a store: every pair
/// encodes the table held under its key, every held key appears, and no key
/// appears twice.
pub open spec fn bucket_matches_store(
    pairs: Seq<(Seq<u8>, Seq<u8>)>,
    m: Map<Seq<u8>, Seq<TokenEntry>>,
) -> bool {
    &&& (forall|i: int|
        0 <= i < pairs.len() ==> m.contains_key(#[trigger] pairs[i].0) && pairs[i].1
            == spec_encode_hits(m[pairs[i].0]))
    &&& (forall|k: Seq<u8>|
        m.contains_key(k) ==> exists|i: int| 0 <= i < pairs.len() && #[trigger] pairs[i].0 == k)
    &&& (forall|i: int, j: int| 0 <= i < j < pairs.len() ==> pairs[i].0 != pairs[j].0)
}

/// Whether key `k` appears in the pair list.
pub open spec fn pairs_have_key(pairs: Seq<(Seq<u8>, Seq<u8>)>, k: Seq<u8>) -> bool {
    exists|i: int| 0 <= i < pairs.len() && #[trigger] pairs[i].0 == k
}

/// Loading pairs that each encode a table of `m` succeeds and overrides the
/// starting model exactly on the pairs' keys, with `m`'s tables.
proof fn lemma_load_pairs_exact(
    pairs: Seq<(Seq<u8>, Seq<u8>)>,
    m: Map<Seq<u8>, Seq<TokenEntry>>,
    m0: Map<Seq<u8>, Seq<TokenEntry>>,
)
    requires
        forall|i: int|
            0 <= i < pairs.len() ==> m.contains_key(#[trigger] pairs[i].0) && pairs[i].1
                == spec_encode_hits(m[pairs[i].0]),
        forall|k: Seq<u8>| m.contains_key(k) ==> wf_hits(#[trigger] m[k]),
    ensures
        spec_load_pairs(m0, pairs) is Ok,
        forall|k: Seq<u8>|
            #![trigger spec_load_pairs(m0, pairs)->Ok_0.contains_key(k)]
            spec_load_pairs(m0, pairs)->Ok_0.contains_key(k) <==> (m0.contains_key(k)
                || pairs_have_key(pairs, k)),
        forall|k: Seq<u8>|
            #![trigger spec_load_pairs(m0, pairs)->Ok_0[k]]
            pairs_have_key(pairs, k) ==> spec_load_pairs(m0, pairs)->Ok_0[k] == m[k],
        forall|k: Seq<u8>|
            #![trigger spec_load_pairs(m0, pairs)->Ok_0[k]]
            !pairs_have_key(pairs, k) && m0.contains_key(k) ==> spec_load_pairs(m0, pairs)->Ok_0[k]
                == m0[k],
    decreases pairs.len(),
{
    if pairs.len() == 0 {
        assert forall|k: Seq<u8>| !pairs_have_key(pairs, k) by {}
    } else {
        let k0 = pairs[0].0;
        let t0 = m[k0];
        crate::codec::lemma_codec_round_trip(t0);
        assert(spec_decode_hits(pairs[0].1) == Ok::<Seq<TokenEntry>, DecodeError>(t0));
        assert(wf_hits(t0));
        let m1 = m0.insert(k0, t0);
        assert forall|i: int|
            0 <= i < pairs.skip(1).len() implies m.contains_key(#[trigger] pairs.skip(1)[i].0)
                && pairs.skip(1)[i].1 == spec_encode_hits(m[pairs.skip(1)[i].0]) by {
            assert(pairs.skip(1)[i] == pairs[i + 1]);
        }
        lemma_load_pairs_exact(pairs.skip(1), m, m1);
        assert(spec_load_pairs(m0, pairs) == spec_load_pairs(m1, pairs.skip(1)));
        let res = spec_load_pairs(m0, pairs)->Ok_0;
        assert forall|k: Seq<u8>|
            pairs_have_key(pairs, k) <==> (k == k0 || pairs_have_key(pairs.skip(1), k)) by {
            if pairs_have_key(pairs, k) {
                let i = choose|i: int| 0 <= i < pairs.len() && #[trigger] pairs[i].0 == k;
                if i > 0 {
                    assert(pairs.skip(1)[i - 1] == pairs[i]);
                }
            }
            if pairs_have_key(pairs.skip(1), k) {
                let i = choose|i: int|
                    0 <= i < pairs.skip(1).len() && #[trigger] pairs.skip(1)[i].0 == k;
                assert(pairs.skip(1)[i] == pairs[i + 1]);
            }
            if k == k0 {
                assert(pairs[0].0 == k);
            }
        }
        assert forall|k: Seq<u8>| #![trigger res.contains_key(k)]
            res.contains_key(k) <==> (m0.contains_key(k) || pairs_have_key(pairs, k)) by {
            assert(res.contains_key(k) <==> (m1.contains_key(k) || pairs_have_key(
                pairs.skip(1),
                k,
            )));
        }
        assert forall|k: Seq<u8>| #![trigger res[k]]
            pairs_have_key(pairs, k) implies res[k] == m[k] by {
            if !pairs_have_key(pairs.skip(1), k) {
                assert(k == k0);
                assert(m1.contains_key(k) && m1[k] == m[k]);
            }
        }
        assert forall|k: Seq<u8>| #![trigger res[k]]
            !pairs_have_key(pairs, k) && m0.contains_key(k) implies res[k] == m0[k] by {
            assert(k != k0);
            assert(m1.contains_key(k) && m1[k] == m0[k]);
        }
    }
}

/// Persistence round trip: pairs that are exactly the content of a
/// well-formed store, loaded into an empty store, restore exactly that
/// store's mapping. With `export_db` and `import_db` this says a flush and a
/// reload preserve every table of every context.
pub proof fn lemma_bucket_restores_store(
    pairs: Seq<(Seq<u8>, Seq<u8>)>,
    m: Map<Seq<u8>, Seq<TokenEntry>>,
)
    requires
        bucket_matches_store(pairs, m),
        forall|k: Seq<u8>| m.contains_key(k) ==> wf_hits(#[trigger] m[k]),
    ensures
        spec_load_pairs(Map::<Seq<u8>, Seq<TokenEntry>>::empty(), pairs) == Ok::<
            Map<Seq<u8>, Seq<TokenEntry>>,
            DecodeError,
        >(m),
{
    let empty = Map::<Seq<u8>, Seq<TokenEntry>>::empty();
    lemma_load_pairs_exact(pairs, m, empty);
    let res = spec_load_pairs(empty, pairs)->Ok_0;
    assert forall|k: Seq<u8>| res.contains_key(k) <==> m.contains_key(k) by {
        assert(res.contains_key(k) <==> pairs_have_key(pairs, k));
        if pairs_have_key(pairs, k) {
            let i = choose|i: int| 0 <= i < pairs.len() && #[trigger] pairs[i].0 == k;
        }
    }
    assert forall|k: Seq<u8>| res.contains_key(k) implies res[k] == m[k] by {
        assert(pairs_have_key(pairs, k));
    }
    assert(res =~= m);
}

impl ContextStore {
    /// Flush the whole store to one bucket byte string — the single-file
    /// layout: one logical table mapping each hash key to its encoded
    /// frequency table. Loading the result into an empty store restores
    /// every table (`import_db`).
    pub fn export_db(&self) -> (r: Vec<u8>)
        requires
            self.wf(),
        ensures
            spec_decode_pairs(r@) is Ok,
            bucket_matches_store(spec_decode_pairs(r@)->Ok_0, self@),
    {
        let pairs = self.snapshot();
        let r = encode_pairs(&pairs);
        proof {
            lemma_pairs_view_shape(pairs@);
            let pv = pairs_view(pairs@);
            assert forall|i: int|
                0 <= i < pv.len() implies #[trigger] pv[i].0.len() <= u64::MAX && pv[i].1.len()
                    <= u64::MAX by {
                assert(pv[i] == (pairs@[i].0@, pairs@[i].1@));
                assert(pairs@[i].0.len() == pairs@[i].0@.len());
                assert(pairs@[i].1.len() == pairs@[i].1@.len());
            }
            lemma_bucket_round_trip(pv);
            assert forall|i: int|
                0 <= i < pv.len() implies self@.contains_key(#[trigger] pv[i].0) && pv[i].1
                    == spec_encode_hits(self@[pv[i].0]) by {
                assert(pv[i] == (pairs@[i].0@, pairs@[i].1@));
            }
            assert forall|k: Seq<u8>| self@.contains_key(k) implies exists|i: int|
                0 <= i < pv.len() && #[trigger] pv[i].0 == k by {
                let i = choose|i: int| 0 <= i < pairs@.len() && pairs@[i].0@ == k;
                assert(pv[i].0 == k);
            }
            assert forall|i: int, j: int| 0 <= i < j < pv.len() implies pv[i].0 != pv[j].0 by {
                assert(pv[i] == (pairs@[i].0@, pairs@[i].1@));
                assert(pv[j] == (pairs@[j].0@, pairs@[j].1@));
            }
            assert(spec_decode_pairs(r@) == Ok::<Seq<(Seq<u8>, Seq<u8>)>, DecodeError>(pv));
            assert(bucket_matches_store(pv, self@));
        }
        r
    }

    /// Load a bucket byte string, table by table, into the store. Returns
    /// the first decode failure; tables loaded before a corrupt record stay
    /// loaded, and the caller treats the whole load as failed.
    pub fn import_db(&mut self, bytes: &Vec<u8>) -> (r: Result<(), DecodeError>)
        requires
            old(self).wf(),
        ensures
            final(self).wf(),
            (match spec_decode_pairs(bytes@) {
                Ok(pairs) => (match spec_load_pairs(old(self)@, pairs) {
                    Ok(m2) => r is Ok && final(self)@ == m2,
                    Err(e) => r == Err::<(), DecodeError>(e),
                }),
                Err(e2) => r == Err::<(), DecodeError>(e2),
            }),
    {
        let pairs = match decode_pairs(bytes) {
            Ok(pairs) => pairs,
            Err(e) => {
                return Err(e);
            },
        };
        let ghost pv = pairs_view(pairs@);
        proof {
            lemma_pairs_view_shape(pairs@);
            assert(pv.skip(0) =~= pv);
        }
        let mut i: usize = 0;
        while i < pairs.len()
            invariant
                i <= pairs@.len(),
                pv == pairs_view(pairs@),
                spec_decode_pairs(bytes@) == Ok::<Seq<(Seq<u8>, Seq<u8>)>, DecodeError>(pv),
                pv.len() == pairs@.len(),
                forall|j: int| 0 <= j < pairs@.len() ==> pv[j] == (pairs@[j].0@, pairs@[j].1@),
                self.wf(),
                spec_load_pairs(old(self)@, pv) == spec_load_pairs(self@, pv.skip(i as int)),
            decreases pairs@.len() - i,
        {
            let key = copy_bytes(&pairs[i].0);
            let ghost pre = self@;
            match self.load_entry(key, &pairs[i].1) {
                Ok(()) => {},
                Err(e) => {
                    proof {
                        let remp = pv.skip(i as int);
                        assert(remp[0] == pv[i as int]);
                        assert(pv[i as int].1 == pairs@[i as int].1@);
                        match spec_decode_hits(pairs@[i as int].1@) {
                            Ok(t) => {
                                assert(!wf_hits(t));
                                assert(spec_load_pairs(pre, remp) == Err::<
                                    Map<Seq<u8>, Seq<TokenEntry>>,
                                    DecodeError,
                                >(DecodeError::DuplicateSymbol));
                            },
                            Err(e3) => {
                                assert(spec_load_pairs(pre, remp) == Err::<
                                    Map<Seq<u8>, Seq<TokenEntry>>,
                                    DecodeError,
                                >(e3));
                            },
                        }
                        assert(spec_load_pairs(old(self)@, pv) == Err::<
                            Map<Seq<u8>, Seq<TokenEntry>>,
                            DecodeError,
                        >(e));
                        assert(spec_decode_pairs(bytes@) == Ok::<
                            Seq<(Seq<u8>, Seq<u8>)>,
                            DecodeError,
                        >(pv));
                    }
                    return Err(e);
                },
            }
            proof {
                let remp = pv.skip(i as int);
                assert(remp[0] == pv[i as int]);
                assert(pv[i as int].1 == pairs@[i as int].1@);
                assert(remp.skip(1) =~= pv.skip(i + 1));
                match spec_decode_hits(pairs@[i as int].1@) {
                    Ok(t) => {
                        assert(wf_hits(t));
                        assert(self@ == pre.insert(pv[i as int].0, t));
                        assert(spec_load_pairs(pre, remp) == spec_load_pairs(
                            pre.insert(pv[i as int].0, t),
                            remp.skip(1),
                        ));
                    },
                    Err(_) => {
                        assert(false);
                    },
                }
            }
            i += 1;
        }
        proof {
            assert(pv.skip(pv.len() as int) =~= Seq::<(Seq<u8>, Seq<u8>)>::empty());
        }
        Ok(())
    }
}

} // verus!
