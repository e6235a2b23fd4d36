//! The sliding-window trainer and the backoff predictor/generator.
//!
//! Training observes, for every prefix of the input and every context length
//! below the configured maximum, the symbol that followed that suffix-context.
//! Prediction tries suffix-contexts from longest to shortest and returns the
//! first non-empty frequency table (longest-match-first backoff). Generation
//! repeatedly predicts from the growing context and picks one successor
//! record uniformly at random by index — by index, not weighted by count:
//! a deliberate choice, since a count-weighted sampler would change every
//! generated text.

use vstd::prelude::*;
use vstd::string::StrSliceExecFns;
use crate::digest::spec_key_of;
use crate::store::{ContextStore, spec_record, table_at};
use crate::token::{Token, TokenEntry, TokenHits, wf_hits};

verus! {

/// The symbol one character becomes.
pub open spec fn tok_of(c: char) -> Token {
    Token::C(c)
}

/// One symbol per character, order and length preserved.
pub open spec fn spec_tokenize(s: Seq<char>) -> Seq<Token>
    decreases s.len(),
{
    if s.len() == 0 {
        Seq::<Token>::empty()
    } else {
        spec_tokenize(s.drop_last()).push(tok_of(s.last()))
    }
}

/// The symbol sequence of a text has one symbol per character, in order.
pub proof fn lemma_tokenize_shape(s: Seq<char>)
    ensures
        spec_tokenize(s).len() == s.len(),
        forall|i: int| 0 <= i < s.len() ==> spec_tokenize(s)[i] == Token::C(s[i]),
    decreases s.len(),
{
    if s.len() == 0 {
    } else {
        lemma_tokenize_shape(s.drop_last());
        assert forall|i: int| 0 <= i < s.len() implies spec_tokenize(s)[i] == Token::C(s[i]) by {
            if i < s.len() - 1 {
                assert(spec_tokenize(s)[i] == spec_tokenize(s.drop_last())[i]);
                assert(s.drop_last()[i] == s[i]);
            } else {
                assert(spec_tokenize(s)[i] == tok_of(s.last()));
            }
        }
    }
}

/// Turn a text into its symbol sequence: one symbol per character.
pub fn tokenize(s: &str) -> (r: Vec<Token>)
    ensures
        r@ == spec_tokenize(s@),
{
    let n = s.unicode_len();
    let mut r: Vec<Token> = Vec::new();
    let mut i: usize = 0;
    while i < n
        invariant
            i <= n,
            n == s@.len(),
            r@.len() == i,
            forall|j: int| 0 <= j < i ==> r@[j] == Token::C(s@[j]),
        decreases n - i,
    {
        let c = s.get_char(i);
        r.push(Token::C(c));
        i += 1;
    }
    proof {
        lemma_tokenize_shape(s@);
        assert(r@ =~= spec_tokenize(s@));
    }
    r
}

/// The model after noting one string: its last symbol observed after the
/// context of everything before it.
pub open spec fn spec_note_string(
    m: Map<Seq<u8>, Seq<TokenEntry>>,
    toks: Seq<Token>,
) -> Map<Seq<u8>, Seq<TokenEntry>> {
    spec_record(m, toks.take(toks.len() - 1), toks.last())
}

/// The model after noting the string once per context length `1..=context`:
/// for each length with enough symbols before the last one, the suffix made
/// of that context and the final symbol is noted.
pub open spec fn spec_note_all(
    m: Map<Seq<u8>, Seq<TokenEntry>>,
    toks: Seq<Token>,
    context: nat,
) -> Map<Seq<u8>, Seq<TokenEntry>>
    decreases context,
{
    if context == 0 {
        m
    } else {
        let j = (context - 1) as nat;
        let m1 = spec_note_all(m, toks, j);
        if toks.len() > 1 + j {
            spec_note_string(m1, toks.skip(toks.len() - 2 - j))
        } else {
            m1
        }
    }
}

/// The model after training on every prefix of the text of length `2..=upto`.
pub open spec fn spec_note_text(
    m: Map<Seq<u8>, Seq<TokenEntry>>,
    toks: Seq<Token>,
    context: nat,
    upto: nat,
) -> Map<Seq<u8>, Seq<TokenEntry>>
    decreases upto,
{
    if upto < 2 {
        m
    } else {
        spec_note_all(spec_note_text(m, toks, context, (upto - 1) as nat), toks.take(upto as int), context)
    }
}

/// Longest-match-first backoff over the suffix lengths `lens` down to `1` —
/// the same lengths the trainer records: the first length whose context has
/// a non-empty stored table decides; if none has, the prediction is empty.
pub open spec fn spec_predict(
    m: Map<Seq<u8>, Seq<TokenEntry>>,
    toks: Seq<Token>,
    lens: nat,
) -> Seq<TokenEntry>
    decreases lens,
{
    if lens == 0 {
        Seq::<TokenEntry>::empty()
    } else {
        if lens <= toks.len() && table_at(m, spec_key_of(toks.skip(toks.len() - lens))).len() > 0 {
            table_at(m, spec_key_of(toks.skip(toks.len() - lens)))
        } else {
            spec_predict(m, toks, (lens - 1) as nat)
        }
    }
}

/// Whether symbol `t` is one of the recorded successors that prediction
/// from `pre` offers.
pub open spec fn step_ok(
    m: Map<Seq<u8>, Seq<TokenEntry>>,
    pre: Seq<Token>,
    t: Token,
    context: nat,
) -> bool {
    exists|j: int|
        0 <= j < spec_predict(m, pre, context).len() && (#[trigger] spec_predict(
            m,
            pre,
            context,
        )[j]).value == t
}

impl ContextStore {
    /// Note one string: its last symbol is the successor, everything before
    /// it is the context.
    pub fn note_string(&mut self, input: &Vec<Token>)
        requires
            old(self).wf(),
            input@.len() >= 1,
        ensures
            final(self).wf(),
            final(self)@ == spec_note_string(old(self)@, input@),
    {
        let n = input.len();
        let mut ctx: Vec<Token> = Vec::new();
        let mut i: usize = 0;
        while i < n - 1
            invariant
                i <= n - 1,
                n == input@.len(),
                n >= 1,
                ctx@ == input@.take(i as int),
            decreases n - 1 - i,
        {
            ctx.push(input[i]);
            proof {
                assert(input@.take(i + 1) =~= input@.take(i as int).push(input@[i as int]));
            }
            i += 1;
        }
        self.record_transition(&ctx, input[n - 1]);
        proof {
            assert(input@.last() == input@[n - 1]);
        }
    }

    /// Note the string once per context length `1..=context`: for each
    /// length with enough preceding symbols, the suffix holding that context
    /// and the final symbol is noted.
    pub fn note_all_string(&mut self, input: &Vec<Token>, context: usize)
        requires
            old(self).wf(),
        ensures
            final(self).wf(),
            final(self)@ == spec_note_all(old(self)@, input@, context as nat),
    {
        let ghost m0 = self@;
        let n = input.len();
        let mut i: usize = 0;
        while i < context
            invariant
                m0 == old(self)@,
                self.wf(),
                n == input@.len(),
                i <= context,
                self@ == spec_note_all(m0, input@, i as nat),
            decreases context - i,
        {
            if n > 1 + i {
                let start = n - 2 - i;
                let mut suffix: Vec<Token> = Vec::new();
                let mut j: usize = start;
                while j < n
                    invariant
                        start <= j <= n,
                        n == input@.len(),
                        suffix@ == input@.subrange(start as int, j as int),
                    decreases n - j,
                {
                    suffix.push(input[j]);
                    proof {
                        assert(input@.subrange(start as int, j + 1) =~= input@.subrange(
                            start as int,
                            j as int,
                        ).push(input@[j as int]));
                    }
                    j += 1;
                }
                proof {
                    assert(suffix@ =~= input@.skip(start as int));
                }
                self.note_string(&suffix);
            }
            i += 1;
            proof {
                assert(self@ == spec_note_all(m0, input@, i as nat));
            }
        }
    }

    /// Train on a text: for every prefix of at least two symbols, note it
    /// once per context length `1..=context`, so every (position,
    /// context-length) pair contributes one observation.
    pub fn note_text(&mut self, input: &str, context: usize)
        requires
            old(self).wf(),
        ensures
            final(self).wf(),
            final(self)@ == spec_note_text(
                old(self)@,
                spec_tokenize(input@),
                context as nat,
                input@.len() as nat,
            ),
    {
        let ghost m0 = self@;
        let toks = tokenize(input);
        let n = toks.len();
        if n < 2 {
            proof {
                lemma_tokenize_shape(input@);
                assert(spec_note_text(m0, spec_tokenize(input@), context as nat, input@.len() as nat)
                    == m0);
            }
            return ;
        }
        let mut k: usize = 0;
        while k < n - 1
            invariant
                m0 == old(self)@,
                self.wf(),
                n == toks@.len(),
                toks@ == spec_tokenize(input@),
                n >= 2,
                k <= n - 1,
                self@ == spec_note_text(m0, toks@, context as nat, (k + 1) as nat),
            decreases n - 1 - k,
        {
            let end = k + 2;
            let mut prefix: Vec<Token> = Vec::new();
            let mut j: usize = 0;
            while j < end
                invariant
                    j <= end,
                    end <= n,
                    n == toks@.len(),
                    prefix@ == toks@.take(j as int),
                decreases end - j,
            {
                prefix.push(toks[j]);
                proof {
                    assert(toks@.take(j + 1) =~= toks@.take(j as int).push(toks@[j as int]));
                }
                j += 1;
            }
            self.note_all_string(&prefix, context);
            k += 1;
            proof {
                let u = (k + 1) as nat;
                assert(u >= 2);
                assert(spec_note_text(m0, toks@, context as nat, u) == spec_note_all(
                    spec_note_text(m0, toks@, context as nat, (u - 1) as nat),
                    toks@.take(u as int),
                    context as nat,
                ));
                assert((u - 1) as nat == k as nat);
                assert(prefix@ == toks@.take(u as int));
                assert(self@ == spec_note_text(m0, toks@, context as nat, u));
            }
        }
        proof {
            lemma_tokenize_shape(input@);
            assert(n == input@.len());
        }
    }

    /// Predict the successors of a context by longest-match-first backoff:
    /// try the suffix of `context` symbols, then ever shorter suffixes down
    /// to a single symbol, and return the first non-empty stored table; the
    /// empty table if every length misses. A pure read.
    pub fn predict(&self, input: &Vec<Token>, context: usize) -> (r: TokenHits)
        requires
            self.wf(),
        ensures
            r@ == spec_predict(self@, input@, context as nat),
            wf_hits(r@),
    {
        let n = input.len();
        let mut l: usize = context;
        while l > 0
            invariant
                self.wf(),
                l <= context,
                n == input@.len(),
                spec_predict(self@, input@, context as nat) == spec_predict(
                    self@,
                    input@,
                    l as nat,
                ),
            decreases l,
        {
            if l <= n {
                let start = n - l;
                let mut suffix: Vec<Token> = Vec::new();
                let mut j: usize = start;
                while j < n
                    invariant
                        start <= j <= n,
                        n == input@.len(),
                        suffix@ == input@.subrange(start as int, j as int),
                    decreases n - j,
                {
                    suffix.push(input[j]);
                    proof {
                        assert(input@.subrange(start as int, j + 1) =~= input@.subrange(
                            start as int,
                            j as int,
                        ).push(input@[j as int]));
                    }
                    j += 1;
                }
                proof {
                    assert(suffix@ =~= input@.skip(start as int));
                }
                let t = self.successors_of(&suffix);
                if t.len() > 0 {
                    return t;
                }
            }
            l = l - 1;
        }
        TokenHits::new()
    }

    /// One generation step: predict from `input` and, if any successor is
    /// recorded, pick one record uniformly at random by index and yield its
    /// symbol. Yields None exactly when prediction comes back empty. The
    /// stored tables are never mutated.
    pub fn generate_step(&mut self, input: &Vec<Token>, context: usize) -> (r: Option<Token>)
        requires
            old(self).wf(),
        ensures
            final(self).wf(),
            final(self)@ == old(self)@,
            (r is None <==> spec_predict(old(self)@, input@, context as nat).len() == 0),
            (match r {
                Some(t) => step_ok(old(self)@, input@, t, context as nat),
                None => true,
            }),
    {
        let cand = self.predict(input, context);
        let n = cand.len();
        if n == 0 {
            return None;
        }
        let idx = self.draw_below(n);
        let t = cand.get(idx).value;
        proof {
            assert(0 <= idx < spec_predict(self@, input@, context as nat).len()
                && spec_predict(self@, input@, context as nat)[idx as int].value == t);
        }
        Some(t)
    }

    /// Generate a continuation of `seed`: repeatedly predict from the seed
    /// plus everything generated so far and append one randomly chosen
    /// successor symbol, stopping as soon as prediction yields no candidate
    /// at any backoff length — or after `max_steps` symbols. Every yielded
    /// symbol is one of the recorded successors of the context it extends;
    /// in particular, a seed with no recorded successors generates nothing.
    pub fn generate(&mut self, seed: &Vec<Token>, context: usize, max_steps: usize) -> (r: Vec<
        Token,
    >)
        requires
            old(self).wf(),
        ensures
            final(self).wf(),
            final(self)@ == old(self)@,
            r@.len() <= max_steps,
            forall|i: int| #![trigger r@.take(i)]
                0 <= i < r@.len() ==> step_ok(old(self)@, seed@ + r@.take(i), r@[i], context as nat),
            r@.len() < max_steps ==> spec_predict(old(self)@, seed@ + r@, context as nat).len()
                == 0,
            spec_predict(old(self)@, seed@, context as nat).len() == 0 ==> r@.len() == 0,
    {
        let ghost m0 = self@;
        let mut out: Vec<Token> = Vec::new();
        let mut cur: Vec<Token> = Vec::new();
        let mut j: usize = 0;
        while j < seed.len()
            invariant
                j <= seed@.len(),
                cur@ == seed@.take(j as int),
            decreases seed@.len() - j,
        {
            cur.push(seed[j]);
            proof {
                assert(seed@.take(j + 1) =~= seed@.take(j as int).push(seed@[j as int]));
            }
            j += 1;
        }
        proof {
            assert(seed@.take(seed@.len() as int) =~= seed@);
            assert(seed@ + out@ =~= seed@);
        }
        let mut done = false;
        while !done && out.len() < max_steps
            invariant
                m0 == old(self)@,
                self.wf(),
                self@ == m0,
                out@.len() <= max_steps,
                cur@ == seed@ + out@,
                forall|i: int| #![trigger out@.take(i)]
                    0 <= i < out@.len() ==> step_ok(m0, seed@ + out@.take(i), out@[i], context as nat),
                done ==> spec_predict(m0, seed@ + out@, context as nat).len() == 0,
            decreases max_steps - out@.len() + (if done { 0int } else { 1int }),
        {
            let ghost out_before = out@;
            let ghost cur_before = cur@;
            match self.generate_step(&cur, context) {
                Some(t) => {
                    out.push(t);
                    cur.push(t);
                    proof {
                        assert(cur@ =~= seed@ + out@);
                        assert forall|i: int| #![trigger out@.take(i)] 0 <= i < out@.len() implies step_ok(
                            m0,
                            seed@ + out@.take(i),
                            out@[i],
                            context as nat,
                        ) by {
                            if i < out_before.len() {
                                assert(out@.take(i) =~= out_before.take(i));
                                assert(out@[i] == out_before[i]);
                                assert(step_ok(m0, seed@ + out_before.take(i), out_before[i], context as nat));
                            } else {
                                assert(out@.take(i) =~= out_before);
                                assert(out@[i] == t);
                                assert(cur_before == seed@ + out_before);
                                assert(step_ok(m0, cur_before, t, context as nat));
                            }
                        }
                    }
                },
                None => {
                    done = true;
                },
            }
        }
        proof {
            if spec_predict(m0, seed@, context as nat).len() == 0 && out@.len() > 0 {
                assert(out@.take(0) =~= Seq::<Token>::empty());
                assert(seed@ + out@.take(0) =~= seed@);
                assert(false);
            }
        }
        out
    }
}

} // verus!
