//! Byte codec for symbol sequences and frequency tables.
//!
//! Contexts are encoded unambiguously (fixed-width records, so no two distinct
//! symbol sequences share an encoding) before hashing, and frequency tables
//! are encoded to the byte strings that the storage backends persist. Both
//! directions are specified exactly, decoding inverts encoding, and the
//! context encoding is proved injective.

use vstd::prelude::*;
use vstd::bytes::{spec_u64_from_le_bytes, spec_u64_to_le_bytes, u64_from_le_bytes, u64_to_le_bytes};
use vstd::bytes::lemma_auto_spec_u64_to_from_le_bytes;
use vstd::slice::slice_subrange;
use crate::token::{Token, TokenEntry, TokenHits};

verus! {

/// Why a persisted byte string failed to parse as a frequency table.
#[derive(Clone, Copy, Debug, PartialEq, Eq, Structural)]
pub enum DecodeError {
    /// The byte string is not a whole number of records.
    BadLength,
    /// A record carries an unknown symbol kind.
    BadTag,
    /// A character record carries a value outside the Unicode scalar range.
    BadSymbol,
    /// A decoded table carries two records for one symbol, which no frequency
    /// table may.
    DuplicateSymbol,
}

/// The kind byte of a symbol's record.
pub open spec fn spec_token_tag(t: Token) -> u8 {
    match t {
        Token::C(_) => 0,
        Token::Num(_) => 1,
    }
}

/// The value of a symbol, widened to one machine word.
pub open spec fn spec_token_val(t: Token) -> u64 {
    match t {
        Token::C(c) => c as u64,
        Token::Num(n) => n,
    }
}

/// Whether `v` is a Unicode scalar value, i.e. the value of some `char`.
pub open spec fn is_scalar_value(v: u64) -> bool {
    v <= 0xD7FF || (0xE000 <= v && v <= 0x10FFFF)
}

/// The symbol a record's kind byte and value stand for.
pub open spec fn spec_token_of(tag: u8, v: u64) -> Token {
    if tag == 0 {
        Token::C(v as char)
    } else {
        Token::Num(v)
    }
}

/// A symbol's 9-byte record: kind byte, then its value in little-endian order.
pub open spec fn spec_encode_token(t: Token) -> Seq<u8> {
    seq![spec_token_tag(t)] + spec_u64_to_le_bytes(spec_token_val(t))
}

/// The unambiguous encoding of a symbol sequence: its records, concatenated.
pub open spec fn spec_encode_tokens(ts: Seq<Token>) -> Seq<u8>
    decreases ts.len(),
{
    if ts.len() == 0 {
        Seq::<u8>::empty()
    } else {
        spec_encode_token(ts[0]) + spec_encode_tokens(ts.skip(1))
    }
}

/// A successor record's 17 bytes: the symbol's record, then the count in
/// little-endian order.
pub open spec fn spec_encode_entry(e: TokenEntry) -> Seq<u8> {
    spec_encode_token(e.value) + spec_u64_to_le_bytes(e.count)
}

/// The byte string a frequency table is persisted as.
pub open spec fn spec_encode_hits(s: Seq<TokenEntry>) -> Seq<u8>
    decreases s.len(),
{
    if s.len() == 0 {
        Seq::<u8>::empty()
    } else {
        spec_encode_entry(s[0]) + spec_encode_hits(s.skip(1))
    }
}

/// The frequency table a byte string stands for, or why it stands for none.
pub open spec fn spec_decode_hits(b: Seq<u8>) -> Result<Seq<TokenEntry>, DecodeError>
    decreases b.len(),
{
    if b.len() == 0 {
        Ok(Seq::<TokenEntry>::empty())
    } else if b.len() < 17 {
        Err(DecodeError::BadLength)
    } else {
        let tag = b[0];
        let v = spec_u64_from_le_bytes(b.subrange(1, 9));
        let c = spec_u64_from_le_bytes(b.subrange(9, 17));
        if tag != 0 && tag != 1 {
            Err(DecodeError::BadTag)
        } else if tag == 0 && !is_scalar_value(v) {
            Err(DecodeError::BadSymbol)
        } else {
            match spec_decode_hits(b.skip(17)) {
                Ok(rest) => Ok(seq![TokenEntry { value: spec_token_of(tag, v), count: c }] + rest),
                Err(e) => Err(e),
            }
        }
    }
}

/// Append one symbol's 9-byte record.
fn push_token_bytes(out: &mut Vec<u8>, t: Token)
    ensures
        final(out)@ == old(out)@ + spec_encode_token(t),
{
    let (tag, v): (u8, u64) = match t {
        Token::C(c) => (0u8, c as u64),
        Token::Num(n) => (1u8, n),
    };
    out.push(tag);
    let mut b = u64_to_le_bytes(v);
    out.append(&mut b);
    proof {
        assert(final(out)@ =~= old(out)@ + spec_encode_token(t));
    }
}

/// Appending one symbol extends the encoding by that symbol's record.
proof fn lemma_encode_tokens_push(ts: Seq<Token>, t: Token)
    ensures
        spec_encode_tokens(ts.push(t)) == spec_encode_tokens(ts) + spec_encode_token(t),
    decreases ts.len(),
{
    lemma_auto_spec_u64_to_from_le_bytes();
    if ts.len() == 0 {
        assert(ts =~= Seq::<Token>::empty());
        assert(ts.push(t).skip(1) =~= ts);
        assert(spec_encode_tokens(ts) == Seq::<u8>::empty());
        assert(spec_encode_tokens(ts.push(t)) =~= spec_encode_tokens(ts) + spec_encode_token(t));
    } else {
        assert(ts.push(t).skip(1) =~= ts.skip(1).push(t));
        lemma_encode_tokens_push(ts.skip(1), t);
        assert(spec_encode_tokens(ts.push(t)) =~= spec_encode_tokens(ts) + spec_encode_token(t));
    }
}

/// Appending one record extends the encoding by that record's bytes.
proof fn lemma_encode_hits_push(s: Seq<TokenEntry>, e: TokenEntry)
    ensures
        spec_encode_hits(s.push(e)) == spec_encode_hits(s) + spec_encode_entry(e),
    decreases s.len(),
{
    lemma_auto_spec_u64_to_from_le_bytes();
    if s.len() == 0 {
        assert(s =~= Seq::<TokenEntry>::empty());
        assert(s.push(e).skip(1) =~= s);
        assert(spec_encode_hits(s) == Seq::<u8>::empty());
        assert(spec_encode_hits(s.push(e)) =~= spec_encode_hits(s) + spec_encode_entry(e));
    } else {
        assert(s.push(e).skip(1) =~= s.skip(1).push(e));
        lemma_encode_hits_push(s.skip(1), e);
        assert(spec_encode_hits(s.push(e)) =~= spec_encode_hits(s) + spec_encode_entry(e));
    }
}

/// Encode a symbol sequence for hashing.
pub fn encode_tokens(ts: &Vec<Token>) -> (r: Vec<u8>)
    ensures
        r@ == spec_encode_tokens(ts@),
{
    let mut out: Vec<u8> = Vec::new();
    let mut i: usize = 0;
    proof {
        assert(ts@.take(0) =~= Seq::<Token>::empty());
    }
    while i < ts.len()
        invariant
            i <= ts@.len(),
            out@ == spec_encode_tokens(ts@.take(i as int)),
        decreases ts@.len() - i,
    {
        push_token_bytes(&mut out, ts[i]);
        proof {
            assert(ts@.take(i + 1) =~= ts@.take(i as int).push(ts@[i as int]));
            lemma_encode_tokens_push(ts@.take(i as int), ts@[i as int]);
        }
        i += 1;
    }
    proof {
        assert(ts@.take(ts@.len() as int) =~= ts@);
    }
    out
}

/// Encode a frequency table to the byte string the backends persist.
pub fn encode_hits(h: &TokenHits) -> (r: Vec<u8>)
    ensures
        r@ == spec_encode_hits(h@),
{
    let mut out: Vec<u8> = Vec::new();
    let mut i: usize = 0;
    proof {
        assert(h@.take(0) =~= Seq::<TokenEntry>::empty());
    }
    while i < h.len()
        invariant
            i <= h@.len(),
            out@ == spec_encode_hits(h@.take(i as int)),
        decreases h@.len() - i,
    {
        let e = h.get(i);
        push_token_bytes(&mut out, e.value);
        let mut b = u64_to_le_bytes(e.count);
        out.append(&mut b);
        proof {
            assert(h@.take(i + 1) =~= h@.take(i as int).push(h@[i as int]));
            lemma_encode_hits_push(h@.take(i as int), h@[i as int]);
            assert(out@ =~= spec_encode_hits(h@.take(i as int)) + spec_encode_entry(h@[i as int]));
        }
        i += 1;
    }
    proof {
        assert(h@.take(h@.len() as int) =~= h@);
    }
    out
}

/// Relies on char::from_u32: it returns the character with the given value
/// exactly when that value is a Unicode scalar value, and None otherwise.
#[verifier::external_body]
fn char_from_u32(v: u32) -> (r: Option<char>)
    ensures
        is_scalar_value(v as u64) ==> r == Some(v as char),
        !is_scalar_value(v as u64) ==> r is None,
{
    char::from_u32(v)
}

/// What `spec_decode_hits` yields once `acc` has already been decoded.
pub open spec fn spec_decode_onto(acc: Seq<TokenEntry>, b: Seq<u8>) -> Result<
    Seq<TokenEntry>,
    DecodeError,
> {
    match spec_decode_hits(b) {
        Ok(rest) => Ok(acc + rest),
        Err(e) => Err(e),
    }
}

/// Decode a persisted byte string back to a frequency table.
///
/// Absence of a stored value is not handled here: an empty byte string is the
/// valid encoding of the empty table. Any malformed byte string is rejected.
pub fn decode_hits(bytes: &Vec<u8>) -> (r: Result<TokenHits, DecodeError>)
    ensures
        (match spec_decode_hits(bytes@) {
            Ok(s) => r matches Ok(h) && h@ == s,
            Err(e) => (r matches Err(e2) && e2 == e),
        }),
{
    let n = bytes.len();
    let mut out: Vec<TokenEntry> = Vec::new();
    let mut i: usize = 0;
    proof {
        assert(bytes@.skip(0) =~= bytes@);
        assert(out@ + spec_decode_hits(bytes@)->Ok_0 =~= spec_decode_hits(bytes@)->Ok_0);
    }
    while i < n
        invariant
            i <= n,
            n == bytes@.len(),
            spec_decode_hits(bytes@) == spec_decode_onto(out@, bytes@.skip(i as int)),
        decreases n - i,
    {
        let ghost rem = bytes@.skip(i as int);
        proof {
            assert(rem.len() == n - i);
        }
        if n - i < 17 {
            return Err(DecodeError::BadLength);
        }
        let tag = bytes[i];
        let vb = slice_subrange(bytes.as_slice(), i + 1, i + 9);
        let v = u64_from_le_bytes(vb);
        let cb = slice_subrange(bytes.as_slice(), i + 9, i + 17);
        let c = u64_from_le_bytes(cb);
        proof {
            assert(rem[0] == bytes@[i as int]);
            assert(rem.subrange(1, 9) =~= bytes@.subrange(i + 1, i + 9));
            assert(rem.subrange(9, 17) =~= bytes@.subrange(i + 9, i + 17));
        }
        if tag != 0 && tag != 1 {
            return Err(DecodeError::BadTag);
        }
        let value: Token = if tag == 0 {
            if !(v <= 0xD7FF || (0xE000 <= v && v <= 0x10FFFF)) {
                return Err(DecodeError::BadSymbol);
            }
            match char_from_u32(v as u32) {
                Some(ch) => Token::C(ch),
                None => {
                    proof {
                        assert(is_scalar_value((v as u32) as u64)) by {
                            assert(v <= 0x10FFFF);
                        }
                        assert(false);
                    }
                    return Err(DecodeError::BadSymbol);
                },
            }
        } else {
            Token::Num(v)
        };
        proof {
            if tag == 0 {
                assert((v as u32) as char == v as char) by {
                    assert(v <= 0x10FFFF);
                }
            }
            assert(value == spec_token_of(rem[0], spec_u64_from_le_bytes(rem.subrange(1, 9))));
        }
        let ghost out_before = out@;
        out.push(TokenEntry { value, count: c });
        proof {
            assert(rem.skip(17) =~= bytes@.skip(i + 17));
            let entry = TokenEntry { value, count: c };
            match spec_decode_hits(rem.skip(17)) {
                Ok(rest) => {
                    assert(spec_decode_hits(rem) == Ok::<Seq<TokenEntry>, DecodeError>(
                        seq![entry] + rest,
                    ));
                    assert(out_before + (seq![entry] + rest) =~= out@ + rest);
                },
                Err(_) => {},
            }
        }
        i += 17;
    }
    proof {
        assert(bytes@.skip(n as int) =~= Seq::<u8>::empty());
        assert(spec_decode_hits(bytes@.skip(n as int)) == Ok::<Seq<TokenEntry>, DecodeError>(
            Seq::<TokenEntry>::empty(),
        ));
        assert(out@ + Seq::<TokenEntry>::empty() =~= out@);
    }
    Ok(TokenHits { entries: out })
}

/// Round trip: decoding the encoding of any frequency table yields that table
/// back, symbol values and counts preserved exactly.
pub proof fn lemma_codec_round_trip(s: Seq<TokenEntry>)
    ensures
        spec_decode_hits(spec_encode_hits(s)) == Ok::<Seq<TokenEntry>, DecodeError>(s),
    decreases s.len(),
{
    lemma_auto_spec_u64_to_from_le_bytes();
    if s.len() == 0 {
        assert(spec_encode_hits(s) =~= Seq::<u8>::empty());
        assert(spec_decode_hits(spec_encode_hits(s)) == Ok::<Seq<TokenEntry>, DecodeError>(
            Seq::<TokenEntry>::empty(),
        ));
        assert(s =~= Seq::<TokenEntry>::empty());
    } else {
        let e = s[0];
        let b = spec_encode_hits(s);
        assert(b =~= spec_encode_entry(e) + spec_encode_hits(s.skip(1)));
        assert(b.len() >= 17);
        assert(b[0] == spec_token_tag(e.value));
        assert(b.subrange(1, 9) =~= spec_u64_to_le_bytes(spec_token_val(e.value)));
        assert(b.subrange(9, 17) =~= spec_u64_to_le_bytes(e.count));
        assert(b.skip(17) =~= spec_encode_hits(s.skip(1)));
        lemma_codec_round_trip(s.skip(1));
        let tag = b[0];
        let v = spec_u64_from_le_bytes(b.subrange(1, 9));
        let c = spec_u64_from_le_bytes(b.subrange(9, 17));
        assert(v == spec_token_val(e.value));
        assert(c == e.count);
        match e.value {
            Token::C(ch) => {
                assert(tag == 0);
                assert(is_scalar_value(v));
                assert(v as char == ch);
                assert(spec_token_of(tag, v) == e.value);
            },
            Token::Num(_) => {
                assert(tag == 1);
                assert(spec_token_of(tag, v) == e.value);
            },
        }
        assert(spec_decode_hits(b) == Ok::<Seq<TokenEntry>, DecodeError>(
            seq![TokenEntry { value: spec_token_of(tag, v), count: c }] + s.skip(1),
        ));
        assert(seq![e] + s.skip(1) =~= s);
    }
}

/// The encoding of a symbol sequence is 9 bytes per symbol.
proof fn lemma_encode_tokens_len(ts: Seq<Token>)
    ensures
        spec_encode_tokens(ts).len() == 9 * ts.len(),
    decreases ts.len(),
{
    lemma_auto_spec_u64_to_from_le_bytes();
    if ts.len() == 0 {
    } else {
        lemma_encode_tokens_len(ts.skip(1));
    }
}

/// The context encoding is injective: no two distinct symbol sequences share
/// an encoding, so no two distinct contexts are hashed from the same bytes.
pub proof fn lemma_encode_tokens_injective(a: Seq<Token>, b: Seq<Token>)
    requires
        spec_encode_tokens(a) == spec_encode_tokens(b),
    ensures
        a == b,
    decreases a.len(),
{
    lemma_auto_spec_u64_to_from_le_bytes();
    lemma_encode_tokens_len(a);
    lemma_encode_tokens_len(b);
    if a.len() == 0 {
        assert(9 * b.len() == 0);
        assert(a =~= b);
    } else {
        assert(b.len() > 0);
        let ea = spec_encode_tokens(a);
        let eb = spec_encode_tokens(b);
        assert(ea =~= spec_encode_token(a[0]) + spec_encode_tokens(a.skip(1)));
        assert(eb =~= spec_encode_token(b[0]) + spec_encode_tokens(b.skip(1)));
        assert(ea[0] == spec_token_tag(a[0]));
        assert(eb[0] == spec_token_tag(b[0]));
        assert(ea.subrange(1, 9) =~= spec_u64_to_le_bytes(spec_token_val(a[0])));
        assert(eb.subrange(1, 9) =~= spec_u64_to_le_bytes(spec_token_val(b[0])));
        assert(spec_u64_from_le_bytes(ea.subrange(1, 9)) == spec_token_val(a[0]));
        assert(spec_u64_from_le_bytes(eb.subrange(1, 9)) == spec_token_val(b[0]));
        assert(spec_token_tag(a[0]) == spec_token_tag(b[0]));
        assert(spec_token_val(a[0]) == spec_token_val(b[0]));
        match (a[0], b[0]) {
            (Token::C(ca), Token::C(cb)) => {
                assert(ca as u64 == cb as u64);
                assert(ca == cb);
            },
            (Token::Num(_), Token::Num(_)) => {
            },
            _ => {
                assert(false);
            },
        }
        assert(a[0] == b[0]);
        assert(ea.skip(9) =~= spec_encode_tokens(a.skip(1)));
        assert(eb.skip(9) =~= spec_encode_tokens(b.skip(1)));
        lemma_encode_tokens_injective(a.skip(1), b.skip(1));
        assert(a.len() == b.len());
        assert forall|i: int| 0 <= i < a.len() implies a[i] == b[i] by {
            if i > 0 {
                assert(a.skip(1)[i - 1] == a[i]);
                assert(b.skip(1)[i - 1] == b[i]);
            }
        }
        assert(a =~= b);
    }
}

} // verus!
